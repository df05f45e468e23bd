use vstd::prelude::*;

use crate::text::push_str;
use crate::text::string_of;
use vstd::string::StrSliceExecFns;

verus! {

/// Help for one option: what to show for its arguments, and what it does.
pub struct OptionsHelp {
    pub meta: Option<String>,
    pub msg: Option<String>,
}

/// The shape of what an option matches, as its help line shows it: named aliases taking
/// `argct` arguments, or the arguments left over (one at a time, or all at once).
pub enum HelpTarget {
    Args(Vec<String>, usize),
    ExtraSoft,
    ExtraHard,
}

/// Whether `s` takes more than one byte in UTF-8.
pub open spec fn more_than_one_byte(s: Seq<char>) -> bool {
    s.len() > 1 || (s.len() == 1 && s[0] as u32 >= 0x80)
}

/// An alias as written on a command line: `-a` for a one-byte alias, `--alias` otherwise.
pub open spec fn alias_text(a: Seq<char>) -> Seq<char> {
    "-"@ + (if more_than_one_byte(a) {
        "-"@
    } else {
        Seq::empty()
    }) + a
}

/// The aliases written out and separated by `|`.
pub open spec fn aliases_text(al: Seq<Seq<char>>) -> Seq<char>
    decreases al.len(),
{
    if al.len() == 0 {
        Seq::empty()
    } else {
        aliases_text(al.drop_last()) + (if al.len() > 1 {
            "|"@
        } else {
            Seq::empty()
        }) + alias_text(al.last())
    }
}

/// `s` written `n` times.
pub open spec fn repeat(s: Seq<char>, n: nat) -> Seq<char>
    decreases n,
{
    if n == 0 {
        Seq::empty()
    } else {
        repeat(s, (n - 1) as nat) + s
    }
}

/// The characters of an optional string.
pub open spec fn opt_text(o: Option<String>) -> Option<Seq<char>> {
    match o {
        Some(s) => Some(s@),
        None => None,
    }
}

/// The left side of a help line.
pub open spec fn lhs_text(meta: Option<Seq<char>>, target: HelpTarget) -> Seq<char> {
    match target {
        HelpTarget::Args(aliases, argct) => aliases_text(aliases@.map_values(|a: String| a@)) + (if argct
            > 0 {
            match meta {
                Some(m) => " "@ + m,
                None => repeat(" <arg>"@, argct as nat),
            }
        } else {
            Seq::empty()
        }),
        HelpTarget::ExtraSoft => match meta {
            Some(m) => m,
            None => "<arg>"@,
        },
        HelpTarget::ExtraHard => match meta {
            Some(m) => m,
            None => "<args>"@,
        },
    }
}

/// Whether a string takes more than one byte in UTF-8.
fn is_long_alias(a: &str) -> (r: bool)
    ensures
        r == more_than_one_byte(a@),
{
    let n = a.unicode_len();
    if n > 1 {
        return true;
    }
    if n == 0 {
        return false;
    }
    let c = a.get_char(0);
    (c as u32) >= 0x80
}

fn clone_opt(o: &Option<String>) -> (r: Option<String>)
    ensures
        opt_text(r) == opt_text(*o),
{
    match o {
        Some(s) => Some(string_of(s.as_str())),
        None => None,
    }
}

impl OptionsHelp {
    /// The help line for an option matching `m`: what to type, and what it does.
    pub fn to_pair(&self, m: &HelpTarget) -> (r: (String, String))
        ensures
            r.0@ == lhs_text(opt_text(self.meta), *m),
            r.1@ == match self.msg {
                Some(s) => s@,
                None => Seq::empty(),
            },
    {
        let lhs = match m {
            HelpTarget::Args(aliases, argct) => {
                let mut lhs = String::new();
                let mut i: usize = 0;
                let ghost al = aliases@.map_values(|a: String| a@);
                while i < aliases.len()
                    invariant
                        al == aliases@.map_values(|a: String| a@),
                        i <= aliases@.len(),
                        lhs@ == aliases_text(al.subrange(0, i as int)),
                    decreases aliases@.len() - i,
                {
                    let alias = aliases[i].as_str();
                    proof {
                        assert(al.subrange(0, i + 1).drop_last() =~= al.subrange(0, i as int));
                    }
                    if i > 0 {
                        push_str(&mut lhs, "|");
                    }
                    push_str(&mut lhs, "-");
                    if is_long_alias(alias) {
                        push_str(&mut lhs, "-");
                    }
                    push_str(&mut lhs, alias);
                    i = i + 1;
                }
                assert(al.subrange(0, aliases@.len() as int) =~= al);
                if *argct > 0 {
                    match &self.meta {
                        Some(s) => {
                            push_str(&mut lhs, " ");
                            push_str(&mut lhs, s.as_str());
                        },
                        None => {
                            let ghost base = lhs@;
                            let mut k: usize = 0;
                            while k < *argct
                                invariant
                                    k <= *argct,
                                    lhs@ == base + repeat(" <arg>"@, k as nat),
                                decreases *argct - k,
                            {
                                push_str(&mut lhs, " <arg>");
                                k = k + 1;
                            }
                        },
                    }
                }
                lhs
            },
            HelpTarget::ExtraSoft => match &self.meta {
                Some(s) => string_of(s.as_str()),
                None => string_of("<arg>"),
            },
            HelpTarget::ExtraHard => match &self.meta {
                Some(s) => string_of(s.as_str()),
                None => string_of("<args>"),
            },
        };
        let rhs = match &self.msg {
            Some(s) => string_of(s.as_str()),
            None => String::new(),
        };
        (lhs, rhs)
    }
}

/// Text that can be used as help.
pub trait ToOptionsHelpString {
    fn into_help_string(self) -> String;
}

impl ToOptionsHelpString for String {
    fn into_help_string(self) -> (r: String)
        ensures
            r == self,
    {
        self
    }
}

impl ToOptionsHelpString for &str {
    fn into_help_string(self) -> (r: String)
        ensures
            r@ == self@,
    {
        string_of(self)
    }
}

/// What can be given as an option's help: nothing (`()`), a message, a pair of argument
/// text and message, or no help at all (`Option<NoHelp>`), which hides the option.
pub trait ToOptionsHelp {
    fn to_help(self) -> Option<OptionsHelp>;
}

impl ToOptionsHelp for () {
    fn to_help(self) -> (r: Option<OptionsHelp>)
        ensures
            r matches Some(h) && h.meta is None && h.msg is None,
    {
        Some(OptionsHelp { meta: None, msg: None })
    }
}

impl ToOptionsHelp for String {
    fn to_help(self) -> (r: Option<OptionsHelp>)
        ensures
            r matches Some(h) && h.meta is None && h.msg == Some(self),
    {
        Some(OptionsHelp { meta: None, msg: Some(self) })
    }
}

impl ToOptionsHelp for (String, String) {
    fn to_help(self) -> (r: Option<OptionsHelp>)
        ensures
            r matches Some(h) && h.meta == Some(self.0) && h.msg == Some(self.1),
    {
        Some(OptionsHelp { meta: Some(self.0), msg: Some(self.1) })
    }
}

/// Help for an option that shows none; it is only named, never built.
pub struct NoHelp();

impl ToOptionsHelp for Option<NoHelp> {
    fn to_help(self) -> (r: Option<OptionsHelp>)
        ensures
            r is None,
    {
        None
    }
}

} // verus!

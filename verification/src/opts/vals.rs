use vstd::prelude::*;

use crate::text::push_char;
use crate::text::string_of;
use crate::validates::Validates;
use crate::validates::ValidationError;
use crate::validates::ValidationResult;
use vstd::string::StrSliceExecFns;

verus! {

/// A flag, off until set.
pub struct BooleanOption(pub bool);

impl Default for BooleanOption {
    fn default() -> (r: BooleanOption)
        ensures
            r.0 == false,
    {
        BooleanOption(false)
    }
}

impl Validates for BooleanOption {
    type Target = bool;

    fn validate(self) -> (r: ValidationResult<bool>)
        ensures
            r == Ok::<bool, ValidationError>(self.0),
    {
        Ok(self.0)
    }
}

impl BooleanOption {
    pub fn set(&mut self) -> (r: ValidationResult<()>)
        ensures
            final(self).0 == true,
            r is Ok,
    {
        self.0 = true;
        Ok(())
    }

    pub fn clear(&mut self) -> (r: ValidationResult<()>)
        ensures
            final(self).0 == false,
            r is Ok,
    {
        self.0 = false;
        Ok(())
    }
}

/// Where an option that was never given gets its value.
pub trait OptionDefaulter<T> {
    fn default() -> ValidationResult<T>;
}

/// An option given at most once, falling back on `P` when it was not.
pub struct DefaultedOption<T, P>(pub Option<T>, pub std::marker::PhantomData<P>);

impl<T, P> Default for DefaultedOption<T, P> {
    fn default() -> (r: DefaultedOption<T, P>)
        ensures
            r.0 is None,
    {
        DefaultedOption(None, std::marker::PhantomData)
    }
}

impl<T, P: OptionDefaulter<T>> Validates for DefaultedOption<T, P> {
    type Target = T;

    fn validate(self) -> (r: ValidationResult<T>)
        ensures
            self.0 matches Some(t) ==> r == Ok::<T, ValidationError>(t),
    {
        match self.0 {
            Some(t) => Ok(t),
            None => P::default(),
        }
    }
}

impl<T, P> DefaultedOption<T, P> {
    /// Gives the option; giving it twice is an error, which leaves the first value.
    pub fn set(&mut self, t: T) -> (r: ValidationResult<()>)
        ensures
            old(self).0 is None ==> r is Ok && final(self).0 == Some(t),
            old(self).0 is Some ==> final(self).0 == old(self).0 && (r matches Err(
                ValidationError::Message(m),
            ) && m@ == "DefaultedOption specified multiple times"@),
    {
        if self.0.is_some() {
            return ValidationError::message("DefaultedOption specified multiple times");
        }
        self.0 = Some(t);
        Ok(())
    }

    /// Gives the option unless it was given; says whether it took `t`.
    pub fn maybe_set(&mut self, t: T) -> (r: ValidationResult<bool>)
        ensures
            old(self).0 is None ==> r == Ok::<bool, ValidationError>(true) && final(self).0 == Some(t),
            old(self).0 is Some ==> r == Ok::<bool, ValidationError>(false) && final(self).0 == old(
                self,
            ).0,
    {
        if self.0.is_some() {
            return Ok(false);
        }
        self.0 = Some(t);
        Ok(true)
    }

    /// Gives the option the value of `f` unless it was given (then `f` is not called); says
    /// whether it did.
    pub fn maybe_set_with(&mut self, f: impl FnOnce() -> T) -> (r: ValidationResult<bool>)
        requires
            old(self).0 is None ==> call_requires(f, ()),
        ensures
            old(self).0 is None ==> r == Ok::<bool, ValidationError>(true) && (final(self).0 matches Some(
                t,
            ) && call_ensures(f, (), t)),
            old(self).0 is Some ==> r == Ok::<bool, ValidationError>(false) && final(self).0 == old(
                self,
            ).0,
    {
        if self.0.is_some() {
            return Ok(false);
        }
        self.0 = Some(f());
        Ok(true)
    }
}

/// The defaulter of options that must be given; it is only named, never built.
pub struct ErrDefaulter();

impl<T> OptionDefaulter<T> for ErrDefaulter {
    fn default() -> (r: Result<T, ValidationError>)
        ensures
            r matches Err::<T, ValidationError>(ValidationError::Message(m)) && m@ == "Missing option"@,
    {
        ValidationError::message("Missing option")
    }
}

/// An option taken as it is.
pub struct UnvalidatedOption<T>(pub T);

impl<T> Validates for UnvalidatedOption<T> {
    type Target = T;

    fn validate(self) -> (r: ValidationResult<T>)
        ensures
            r == Ok::<T, ValidationError>(self.0),
    {
        Ok(self.0)
    }
}

impl<T> UnvalidatedOption<Option<T>> {
    /// Gives an optional option; giving it twice is an error, which leaves the first value.
    pub fn set(&mut self, t: T) -> (r: ValidationResult<()>)
        ensures
            old(self).0 is None ==> r is Ok && final(self).0 == Some(t),
            old(self).0 is Some ==> final(self).0 == old(self).0 && (r matches Err(
                ValidationError::Message(m),
            ) && m@ == "OptionalOption specified multiple times"@),
    {
        if self.0.is_some() {
            return ValidationError::message("OptionalOption specified multiple times");
        }
        self.0 = Some(t);
        Ok(())
    }

    /// Gives an optional option unless it was given; says whether it took `t`.
    pub fn maybe_set(&mut self, t: T) -> (r: ValidationResult<bool>)
        ensures
            old(self).0 is None ==> r == Ok::<bool, ValidationError>(true) && final(self).0 == Some(t),
            old(self).0 is Some ==> r == Ok::<bool, ValidationError>(false) && final(self).0 == old(
                self,
            ).0,
    {
        if self.0.is_some() {
            return Ok(false);
        }
        self.0 = Some(t);
        Ok(true)
    }
}

/// The pieces of `s` between commas, in order (an empty string is one empty piece).
pub open spec fn split_commas(s: Seq<char>) -> Seq<Seq<char>>
    decreases s.len(),
{
    if s.len() == 0 {
        seq![Seq::empty()]
    } else {
        let rest = split_commas(s.drop_last());
        if s.last() == ',' {
            rest.push(Seq::empty())
        } else {
            rest.update(rest.len() - 1, rest.last().push(s.last()))
        }
    }
}

proof fn lemma_split_commas_nonempty(s: Seq<char>)
    ensures
        split_commas(s).len() >= 1,
    decreases s.len(),
{
    if s.len() > 0 {
        lemma_split_commas_nonempty(s.drop_last());
    }
}

impl UnvalidatedOption<Vec<String>> {
    pub fn push(&mut self, s: String) -> (r: ValidationResult<()>)
        ensures
            final(self).0@ == old(self).0@.push(s),
            r is Ok,
    {
        self.0.push(s);
        Ok(())
    }

    /// Adds each comma-separated piece of `s`.
    pub fn push_split(&mut self, s: &str) -> (r: ValidationResult<()>)
        ensures
            final(self).0@.len() == old(self).0@.len() + split_commas(s@).len(),
            forall|i: int|
                0 <= i < old(self).0@.len() ==> #[trigger] final(self).0@[i] == old(self).0@[i],
            forall|i: int|
                0 <= i < split_commas(s@).len() ==> #[trigger] final(self).0@[old(self).0@.len() + i]@
                    == split_commas(s@)[i],
            r is Ok,
    {
        let n = s.unicode_len();
        let ghost start = self.0@.len();
        let mut cur = String::new();
        let mut i: usize = 0;
        proof {
            lemma_split_commas_nonempty(s@.subrange(0, 0));
        }
        while i < n
            invariant
                n == s@.len(),
                i <= n,
                start == old(self).0@.len(),
                ({
                    let parts = split_commas(s@.subrange(0, i as int));
                    &&& self.0@.len() == start + parts.len() - 1
                    &&& forall|k: int| 0 <= k < start ==> #[trigger] self.0@[k] == old(self).0@[k]
                    &&& forall|k: int| 0 <= k < parts.len() - 1 ==> #[trigger] self.0@[start + k]@ == parts[k]
                    &&& cur@ == parts.last()
                }),
            decreases n - i,
        {
            let c = s.get_char(i);
            proof {
                assert(s@.subrange(0, i + 1).drop_last() =~= s@.subrange(0, i as int));
                lemma_split_commas_nonempty(s@.subrange(0, i as int));
            }
            if c == ',' {
                let mut piece = String::new();
                std::mem::swap(&mut piece, &mut cur);
                self.0.push(piece);
            } else {
                push_char(&mut cur, c);
            }
            i = i + 1;
        }
        assert(s@.subrange(0, n as int) =~= s@);
        proof {
            lemma_split_commas_nonempty(s@);
        }
        let ghost before = self.0@;
        self.0.push(cur);
        assert forall|k: int| 0 <= k < start implies #[trigger] self.0@[k] == old(self).0@[k] by {
            assert(self.0@[k] == before[k]);
        }
        Ok(())
    }

    /// Adds each of `a`.
    pub fn push_all(&mut self, a: &[String]) -> (r: ValidationResult<()>)
        ensures
            final(self).0@.len() == old(self).0@.len() + a@.len(),
            forall|i: int|
                0 <= i < old(self).0@.len() ==> #[trigger] final(self).0@[i] == old(self).0@[i],
            forall|i: int| 0 <= i < a@.len() ==> #[trigger] final(self).0@[old(self).0@.len() + i]@ == a@[i]@,
            r is Ok,
    {
        let mut i: usize = 0;
        while i < a.len()
            invariant
                i <= a@.len(),
                self.0@.len() == old(self).0@.len() + i,
                forall|k: int| 0 <= k < old(self).0@.len() ==> #[trigger] self.0@[k] == old(self).0@[k],
                forall|k: int| 0 <= k < i ==> #[trigger] self.0@[old(self).0@.len() + k]@ == a@[k]@,
            decreases a@.len() - i,
        {
            self.0.push(a[i].clone());
            i = i + 1;
        }
        Ok(())
    }

    pub fn maybe_push(&mut self, a: String) -> (r: ValidationResult<bool>)
        ensures
            final(self).0@ == old(self).0@.push(a),
            r == Ok::<bool, ValidationError>(true),
    {
        self.0.push(a);
        Ok(true)
    }
}

/// An option whose value is another's, shared.
pub struct IntoArcOption<P>(pub P);

impl<P: Validates> Validates for IntoArcOption<P> {
    type Target = std::sync::Arc<P::Target>;

    /// The inner option's outcome, its value shared.
    fn validate(self) -> (r: ValidationResult<std::sync::Arc<P::Target>>)
        ensures
            exists|inner: ValidationResult<P::Target>|
                #[trigger] call_ensures(P::validate, (self.0,), inner) && match inner {
                    Ok(t) => r matches Ok(a) && a == t,
                    Err(e) => r matches Err(e2) && e2 == e,
                },
    {
        match self.0.validate() {
            Ok(t) => Ok(std::sync::Arc::new(t)),
            Err(e) => Err(e),
        }
    }
}

/// An option with no value.
pub struct EmptyOption();

impl Validates for EmptyOption {
    type Target = ();

    fn validate(self) -> (r: ValidationResult<()>)
        ensures
            r is Ok,
    {
        Ok(())
    }
}

} // verus!

use vstd::prelude::*;
use vstd::string::StrSliceExecFns;

verus! {

/// A type with finitely many values, all of which can be listed.
pub trait Universe: Sized {
    spec fn spec_universe() -> Seq<Self>;

    fn universe() -> (r: Vec<Self>)
        ensures
            r@ == Self::spec_universe(),
    ;
}

/// A type whose values have names.
pub trait Named {
    spec fn spec_name(&self) -> Seq<char>;

    fn name(&self) -> (r: &'static str)
        ensures
            r@ == self.spec_name(),
    ;
}

/// The first value of the universe whose name is `s`, if any.
pub fn named<T: Named + Universe>(s: &str) -> (r: Option<T>)
    ensures
        match r {
            Some(t) => exists|i: int|
                0 <= i < T::spec_universe().len() && T::spec_universe()[i] == t && t.spec_name() == s@
                    && forall|j: int| 0 <= j < i ==> #[trigger] T::spec_universe()[j].spec_name() != s@,
            None => forall|i: int|
                0 <= i < T::spec_universe().len() ==> #[trigger] T::spec_universe()[i].spec_name() != s@,
        },
{
    let mut u = T::universe();
    let mut i: usize = 0;
    let ghost all = u@;
    while i < u.len()
        invariant
            u@ == all,
            all == T::spec_universe(),
            i <= u@.len(),
            forall|j: int| 0 <= j < i ==> #[trigger] all[j].spec_name() != s@,
        decreases u@.len() - i,
    {
        if str_eq(u[i].name(), s) {
            let t = u.swap_remove(i);
            return Some(t);
        }
        i = i + 1;
    }
    None
}

/// Whether two strings hold the same characters.
pub fn str_eq(a: &str, b: &str) -> (r: bool)
    ensures
        r == (a@ == b@),
{
    let n = a.unicode_len();
    if n != b.unicode_len() {
        return false;
    }
    let mut i: usize = 0;
    while i < n
        invariant
            n == a@.len(),
            n == b@.len(),
            i <= n,
            forall|j: int| 0 <= j < i ==> a@[j] == b@[j],
        decreases n - i,
    {
        if a.get_char(i) != b.get_char(i) {
            return false;
        }
        i = i + 1;
    }
    assert(a@ =~= b@);
    true
}

} // verus!

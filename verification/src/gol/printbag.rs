use vstd::prelude::*;

use crate::text::push_char;

verus! {

/// The smallest interval holding every value touched so far, if any was.
pub struct Range(pub Option<(isize, isize)>);

/// The interval `r` widened to hold `v`.
pub open spec fn touched(r: Option<(isize, isize)>, v: isize) -> Option<(isize, isize)> {
    match r {
        None => Some((v, v)),
        Some((lo, hi)) => Some((if v < lo { v } else { lo }, if v > hi { v } else { hi })),
    }
}

impl Range {
    pub fn touch(&mut self, v: isize)
        ensures
            final(self).0 == touched(old(self).0, v),
    {
        self.0 = Some(
            match self.0 {
                None => (v, v),
                Some((lo, hi)) => (if v < lo { v } else { lo }, if v > hi { v } else { hi }),
            },
        );
    }
}

/// Characters placed at points `(x, y, t)`, printed as one line per `y`, the generations `t` side
/// by side and separated by `" | "`, each generation spanning the columns `x` ever used.
pub struct PrintBag {
    xr: Range,
    yr: Range,
    tr: Range,
    entries: Vec<((isize, isize, isize), char)>,
}

/// The separator printed before generation `t`.
pub open spec fn sep(t: int) -> Seq<char> {
    if t > 0 {
        seq![' ', '|', ' ']
    } else {
        Seq::empty()
    }
}

impl PrintBag {
    /// Columns used so far.
    pub closed spec fn xrange(&self) -> Option<(isize, isize)> {
        self.xr.0
    }

    /// Rows used so far.
    pub closed spec fn yrange(&self) -> Option<(isize, isize)> {
        self.yr.0
    }

    /// Generations used so far.
    pub closed spec fn trange(&self) -> Option<(isize, isize)> {
        self.tr.0
    }

    /// The characters placed so far, by point.
    pub closed spec fn view(&self) -> Map<(isize, isize, isize), char> {
        Map::new(
            |k: (isize, isize, isize)| exists|i: int| 0 <= i < self.entries@.len() && #[trigger] self.entries@[i].0 == k,
            |k: (isize, isize, isize)|
                self.entries@[choose|i: int| 0 <= i < self.entries@.len() && #[trigger] self.entries@[i].0 == k].1,
        )
    }

    /// Each point is stored once, and the ranges hold every point stored.
    pub closed spec fn wf(&self) -> bool {
        &&& forall|i: int, j: int|
            0 <= i < j < self.entries@.len() ==> #[trigger] self.entries@[i].0 != #[trigger] self.entries@[j].0
        &&& (self.entries@.len() == 0) == (self.xr.0 is None)
        &&& (self.entries@.len() == 0) == (self.yr.0 is None)
        &&& (self.entries@.len() == 0) == (self.tr.0 is None)
        &&& self.xr.0 matches Some((lo, hi)) ==> lo <= hi
        &&& self.yr.0 matches Some((lo, hi)) ==> lo <= hi
        &&& self.tr.0 matches Some((lo, hi)) ==> lo <= hi
    }

    /// The character printed at `(x, y, t)`: the one placed there, else a blank.
    pub open spec fn cell(&self, x: int, y: int, t: int) -> char {
        let k = (x as isize, y as isize, t as isize);
        if self@.contains_key(k) {
            self@[k]
        } else {
            ' '
        }
    }

    /// The characters of line `y` for the first `n` generations.
    pub open spec fn line_gens(&self, y: int, n: nat) -> Seq<char>
        decreases n,
    {
        match (self.xrange(), self.trange()) {
            (Some((xlo, xhi)), Some((tlo, thi))) => {
                if n == 0 {
                    Seq::empty()
                } else {
                    let t = tlo + n - 1;
                    self.line_gens(y, (n - 1) as nat) + sep(t) + Seq::new(
                        (xhi - xlo + 1) as nat,
                        |i: int| self.cell(xlo + i, y, t),
                    )
                }
            },
            _ => Seq::empty(),
        }
    }

    /// The printed line for row `y`.
    pub open spec fn line(&self, y: int) -> Seq<char> {
        match self.trange() {
            Some((tlo, thi)) => self.line_gens(y, (thi - tlo + 1) as nat),
            None => Seq::empty(),
        }
    }

    pub fn new() -> (r: PrintBag)
        ensures
            r.wf(),
            r@ == Map::<(isize, isize, isize), char>::empty(),
            r.xrange() is None,
            r.yrange() is None,
            r.trange() is None,
    {
        let r = PrintBag { xr: Range(None), yr: Range(None), tr: Range(None), entries: Vec::new() };
        assert(r@ =~= Map::<(isize, isize, isize), char>::empty());
        r
    }

    /// Index of the entry for point `k`, if there is one.
    fn find(&self, k: (isize, isize, isize)) -> (r: Option<usize>)
        requires
            self.wf(),
        ensures
            match r {
                Some(i) => i < self.entries@.len() && self.entries@[i as int].0 == k,
                None => forall|i: int| 0 <= i < self.entries@.len() ==> #[trigger] self.entries@[i].0 != k,
            },
    {
        let mut i: usize = 0;
        while i < self.entries.len()
            invariant
                i <= self.entries@.len(),
                forall|j: int| 0 <= j < i ==> #[trigger] self.entries@[j].0 != k,
            decreases self.entries@.len() - i,
        {
            let e = self.entries[i].0;
            if e.0 == k.0 && e.1 == k.1 && e.2 == k.2 {
                return Some(i);
            }
            i = i + 1;
        }
        None
    }

    /// The character placed at `k`, if any.
    pub fn get(&self, k: (isize, isize, isize)) -> (r: Option<char>)
        requires
            self.wf(),
        ensures
            r == (if self@.contains_key(k) {
                Some(self@[k])
            } else {
                None
            }),
    {
        match self.find(k) {
            Some(i) => {
                proof {
                    let j = choose|j: int| 0 <= j < self.entries@.len() && #[trigger] self.entries@[j].0 == k;
                    assert(j == i as int);
                }
                Some(self.entries[i].1)
            },
            None => None,
        }
    }

    /// Places `c` at `(x, y, t)`, replacing what was there.
    pub fn insert(&mut self, x: isize, y: isize, t: isize, c: char)
        requires
            old(self).wf(),
        ensures
            final(self).wf(),
            final(self)@ == old(self)@.insert((x, y, t), c),
            final(self).xrange() == touched(old(self).xrange(), x),
            final(self).yrange() == touched(old(self).yrange(), y),
            final(self).trange() == touched(old(self).trange(), t),
    {
        let k = (x, y, t);
        let ghost old_entries = self.entries@;
        let ghost mut wi: int = 0;
        match self.find(k) {
            Some(i) => {
                self.entries.set(i, (k, c));
                proof {
                    wi = i as int;
                }
            },
            None => {
                self.entries.push((k, c));
                proof {
                    wi = old_entries.len() as int;
                }
            },
        }
        assert(0 <= wi < self.entries@.len() && self.entries@[wi] == (k, c));
        self.xr.touch(x);
        self.yr.touch(y);
        self.tr.touch(t);
        proof {
            let m = self@;
            let o = old(self)@;
            assert forall|q: (isize, isize, isize)| #[trigger] m.contains_key(q) == o.insert(k, c).contains_key(q) by {
                if q == k {
                    assert(self.entries@[wi].0 == k);
                } else if o.contains_key(q) {
                    let j = choose|j: int| 0 <= j < old_entries.len() && #[trigger] old_entries[j].0 == q;
                    assert(self.entries@[j].0 == q);
                } else if m.contains_key(q) {
                    let j = choose|j: int| 0 <= j < self.entries@.len() && #[trigger] self.entries@[j].0 == q;
                    assert(old_entries[j].0 == q);
                }
            }
            assert forall|q: (isize, isize, isize)| #[trigger] m.contains_key(q) implies m[q] == o.insert(k, c)[q] by {
                let j = choose|j: int| 0 <= j < self.entries@.len() && #[trigger] self.entries@[j].0 == q;
                if q == k {
                    assert(self.entries@[j] == (k, c));
                } else {
                    assert(old_entries[j].0 == q);
                    let j0 = choose|j0: int| 0 <= j0 < old_entries.len() && #[trigger] old_entries[j0].0 == q;
                    assert(j0 == j);
                }
            }
            assert(m =~= o.insert(k, c));
        }
    }

    /// The printed lines, one per row from the lowest `y` used to the highest; none when nothing
    /// was placed.
    pub fn format(&self) -> (r: Vec<String>)
        requires
            self.wf(),
        ensures
            self.yrange() is None ==> r@.len() == 0,
            self.yrange() matches Some((lo, hi)) ==> {
                &&& r@.len() == hi - lo + 1
                &&& forall|i: int| 0 <= i < r@.len() ==> #[trigger] r@[i]@ == self.line(lo + i)
            },
    {
        let mut ret: Vec<String> = Vec::new();
        let (ylo, yhi) = match self.yr.0 {
            None => {
                return ret;
            },
            Some(b) => b,
        };
        let (xlo, xhi) = self.xr.0.unwrap();
        let (tlo, thi) = self.tr.0.unwrap();
        let mut y = ylo;
        loop
            invariant_except_break
                ret@.len() == y - ylo,
            invariant
                self.wf(),
                self.yr.0 == Some((ylo, yhi)),
                self.xr.0 == Some((xlo, xhi)),
                self.tr.0 == Some((tlo, thi)),
                ylo <= y <= yhi,
                forall|i: int| 0 <= i < ret@.len() ==> #[trigger] ret@[i]@ == self.line(ylo + i),
            ensures
                ret@.len() == yhi - ylo + 1,
                forall|i: int| 0 <= i < ret@.len() ==> #[trigger] ret@[i]@ == self.line(ylo + i),
            decreases yhi - y,
        {
            let line = self.format_line(y);
            ret.push(line);
            if y == yhi {
                break;
            }
            y = y + 1;
        }
        ret
    }

    fn format_line(&self, y: isize) -> (r: String)
        requires
            self.wf(),
            self.xrange() is Some,
            self.trange() is Some,
        ensures
            r@ == self.line(y as int),
    {
        let (xlo, xhi) = self.xr.0.unwrap();
        let (tlo, thi) = self.tr.0.unwrap();
        let mut r = String::new();
        let mut t = tlo;
        loop
            invariant_except_break
                r@ == self.line_gens(y as int, (t - tlo) as nat),
            invariant
                self.wf(),
                self.xr.0 == Some((xlo, xhi)),
                self.tr.0 == Some((tlo, thi)),
                tlo <= t <= thi,
            ensures
                r@ == self.line_gens(y as int, (thi - tlo + 1) as nat),
            decreases thi - t,
        {
            if t > 0 {
                push_char(&mut r, ' ');
                push_char(&mut r, '|');
                push_char(&mut r, ' ');
            }
            let ghost base = r@;
            assert(base == self.line_gens(y as int, (t - tlo) as nat) + sep(t as int));
            let mut x = xlo;
            loop
                invariant_except_break
                    r@ == base + Seq::new((x - xlo) as nat, |i: int| self.cell(xlo + i, y as int, t as int)),
                invariant
                    self.wf(),
                    self.xr.0 == Some((xlo, xhi)),
                    self.tr.0 == Some((tlo, thi)),
                    xlo <= x <= xhi,
                ensures
                    r@ == base + Seq::new((xhi - xlo + 1) as nat, |i: int| self.cell(xlo + i, y as int, t as int)),
                decreases xhi - x,
            {
                let c = match self.get((x, y, t)) {
                    Some(c) => c,
                    None => ' ',
                };
                push_char(&mut r, c);
                assert(r@ =~= base + Seq::new((x + 1 - xlo) as nat, |i: int| self.cell(xlo + i, y as int, t as int)));
                if x == xhi {
                    break;
                }
                x = x + 1;
            }
            assert(r@ == self.line_gens(y as int, (t + 1 - tlo) as nat));
            if t == thi {
                break;
            }
            t = t + 1;
        }
        r
    }
}

} // verus!

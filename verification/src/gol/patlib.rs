use vstd::prelude::*;
use vstd::string::StrSliceExecFns;

use crate::scalar::Scalar;
use crate::scalar::UScalar;

verus! {

// ---------------------------------------------------------------------------------------------
// Run-length encoded patterns
// ---------------------------------------------------------------------------------------------

/// A position and the live cells placed so far while reading a pattern.
pub type RleState = (int, int, Seq<(int, int)>);

pub open spec fn is_digit(c: char) -> bool {
    '0' <= c && c <= '9'
}

/// Number of digits at the front of `cs`.
pub open spec fn digit_run(cs: Seq<char>) -> nat
    decreases cs.len(),
{
    if cs.len() > 0 && is_digit(cs[0]) {
        1 + digit_run(cs.drop_first())
    } else {
        0
    }
}

/// The number written by the decimal digits `cs`, most significant first.
pub open spec fn digits_value(cs: Seq<char>) -> nat
    decreases cs.len(),
{
    if cs.len() == 0 {
        0
    } else {
        digits_value(cs.drop_last()) * 10 + ((cs.last() as nat) - ('0' as nat)) as nat
    }
}

/// What `m` copies of the tag `c` do, `counted` telling whether a count was written before it.
/// `$` ends rows, `o` places live cells, `b` skips cells, `!` (uncounted) does nothing; any other
/// tag, a counted `!`, or a position past `isize::MAX` refuses the pattern.
pub open spec fn rle_run(c: char, m: nat, counted: bool, st: RleState) -> Option<RleState> {
    let (x, y, cells) = st;
    if m == 0 {
        Some(st)
    } else if c == '$' {
        if y + m > isize::MAX {
            None
        } else {
            Some((0, y + m, cells))
        }
    } else if c == 'o' || c == 'b' {
        if x + m > isize::MAX {
            None
        } else if c == 'o' {
            Some((x + m, y, cells + Seq::new(m, |k: int| (x + k, y))))
        } else {
            Some((x + m, y, cells))
        }
    } else if c == '!' && !counted {
        Some(st)
    } else {
        None
    }
}

/// One line of pattern text read from the state `st`.  A count with nothing after it on the line
/// refuses the pattern, unless the count is zero.
pub open spec fn rle_line(cs: Seq<char>, st: RleState) -> Option<RleState>
    decreases cs.len(),
{
    let nd = digit_run(cs);
    let counted = nd > 0;
    let m = if counted {
        digits_value(cs.take(nd as int))
    } else {
        1
    };
    if m > usize::MAX {
        None
    } else if nd >= cs.len() {
        if counted && m > 0 {
            None
        } else {
            Some(st)
        }
    } else {
        match rle_run(cs[nd as int], m, counted, st) {
            Some(st2) => rle_line(cs.skip(nd + 1int), st2),
            None => None,
        }
    }
}

/// The lines `ls` read one after the other from the state `st`.
pub open spec fn rle_lines(ls: Seq<Seq<char>>, st: RleState) -> Option<RleState>
    decreases ls.len(),
{
    if ls.len() == 0 {
        Some(st)
    } else {
        match rle_line(ls[0], st) {
            Some(st2) => rle_lines(ls.drop_first(), st2),
            None => None,
        }
    }
}

pub open spec fn starts_with(s: Seq<char>, p: Seq<char>) -> bool {
    p.len() <= s.len() && s.take(p.len() as int) == p
}

/// Number of comment lines (starting with `#`) at the front of `ls`.
pub open spec fn comment_count(ls: Seq<Seq<char>>) -> nat
    decreases ls.len(),
{
    if ls.len() > 0 && ls[0].len() > 0 && ls[0][0] == '#' {
        1 + comment_count(ls.drop_first())
    } else {
        0
    }
}

pub open spec fn lines_view(ls: Seq<String>) -> Seq<Seq<char>> {
    ls.map_values(|s: String| s@)
}

/// The live cells of a pattern file: after the comments comes a header line starting with
/// `x = `, then the run-length encoded cells, read left to right and top to bottom from `(0, 0)`.
/// `None` where the text is not such a file.
pub open spec fn rle_cells(ls: Seq<Seq<char>>) -> Option<Seq<(int, int)>> {
    let k = comment_count(ls);
    if k < ls.len() && starts_with(ls[k as int], seq!['x', ' ', '=', ' ']) {
        match rle_lines(ls.skip(k + 1int), (0, 0, Seq::empty())) {
            Some(st) => Some(st.2),
            None => None,
        }
    } else {
        None
    }
}

pub open spec fn cells_int(v: Seq<(isize, isize)>) -> Seq<(int, int)> {
    v.map_values(|p: (isize, isize)| (p.0 as int, p.1 as int))
}

/// `a` comes before `b` in reading order: an earlier row, or further left on the same row.
pub open spec fn before(a: (int, int), b: (int, int)) -> bool {
    a.1 < b.1 || (a.1 == b.1 && a.0 < b.0)
}

pub open spec fn in_reading_order(s: Seq<(int, int)>) -> bool {
    forall|i: int, j: int| 0 <= i < j < s.len() ==> before(#[trigger] s[i], #[trigger] s[j])
}

pub open spec fn nonneg_cells(s: Seq<(int, int)>) -> bool {
    forall|i: int| 0 <= i < s.len() ==> 0 <= (#[trigger] s[i]).0 && 0 <= s[i].1
}

pub open spec fn all_before(s: Seq<(int, int)>, p: (int, int)) -> bool {
    forall|i: int| 0 <= i < s.len() ==> before(#[trigger] s[i], p)
}

proof fn lemma_digit_run(cs: Seq<char>, nd: int)
    requires
        0 <= nd <= cs.len(),
        forall|i: int| 0 <= i < nd ==> is_digit(#[trigger] cs[i]),
        nd == cs.len() || !is_digit(cs[nd]),
    ensures
        digit_run(cs) == nd,
    decreases nd,
{
    if nd > 0 {
        let t = cs.drop_first();
        assert forall|i: int| 0 <= i < nd - 1 implies is_digit(#[trigger] t[i]) by {
            assert(t[i] == cs[i + 1]);
        }
        lemma_digit_run(t, nd - 1);
    }
}

fn char_digit(c: char) -> (r: Option<usize>)
    ensures
        r is Some <==> is_digit(c),
        r is Some ==> r->0 == (c as nat) - ('0' as nat),
{
    if '0' <= c && c <= '9' {
        Some((c as u32 - '0' as u32) as usize)
    } else {
        None
    }
}

fn starts_with_char(s: &str, c: char) -> (r: bool)
    ensures
        r == (s@.len() > 0 && s@[0] == c),
{
    s.unicode_len() > 0 && s.get_char(0) == c
}

fn is_header(s: &str) -> (r: bool)
    ensures
        r == starts_with(s@, seq!['x', ' ', '=', ' ']),
{
    let n = s.unicode_len();
    if n < 4 {
        return false;
    }
    let r = s.get_char(0) == 'x' && s.get_char(1) == ' ' && s.get_char(2) == '=' && s.get_char(3)
        == ' ';
    assert(r == (s@.take(4) =~= seq!['x', ' ', '=', ' ']));
    r
}

fn is_digit_char(c: char) -> (r: bool)
    ensures
        r == is_digit(c),
{
    '0' <= c && c <= '9'
}

/// The run of digits in `s` from the character `j` on: its length, its value where that fits in
/// a `usize`, and whether it does not.
fn read_count(s: &str, j: usize, n: usize) -> (r: (usize, usize, bool))
    requires
        n == s@.len(),
        j <= n,
    ensures
        j + r.0 <= n,
        digit_run(s@.skip(j as int)) == r.0,
        r.2 <==> digits_value(s@.skip(j as int).take(r.0 as int)) > usize::MAX,
        !r.2 ==> r.1 == digits_value(s@.skip(j as int).take(r.0 as int)),
{
    let ghost cs = s@;
    let mut nd: usize = 0;
    let mut m: usize = 0;
    let mut big = false;
    while j + nd < n && is_digit_char(s.get_char(j + nd))
        invariant
            n == cs.len(),
            cs == s@,
            j <= n,
            j + nd <= n,
            forall|i: int| 0 <= i < nd ==> is_digit(#[trigger] cs[j + i]),
            big <==> digits_value(cs.subrange(j as int, j + nd)) > usize::MAX,
            !big ==> m == digits_value(cs.subrange(j as int, j + nd)),
        decreases n - j - nd,
    {
        let c = s.get_char(j + nd);
        let ghost old_sub = cs.subrange(j as int, j + nd);
        let ghost new_sub = cs.subrange(j as int, j + nd + 1);
        assert(new_sub.drop_last() =~= old_sub);
        assert(new_sub.last() == c);
        let d = (c as u32 - '0' as u32) as usize;
        assert(d == (c as nat) - ('0' as nat));
        if !big {
            if m > (usize::MAX - d) / 10 {
                big = true;
                assert(m * 10 + d > usize::MAX) by (nonlinear_arith)
                    requires
                        m > (usize::MAX - d) / 10,
                        d <= 9,
                ;
            } else {
                assert(m * 10 + d <= usize::MAX) by (nonlinear_arith)
                    requires
                        m <= (usize::MAX - d) / 10,
                        d <= 9,
                ;
                m = m * 10 + d;
            }
        }
        nd = nd + 1;
    }
    let ghost t = cs.skip(j as int);
    assert forall|i: int| 0 <= i < nd implies is_digit(#[trigger] t[i]) by {
        assert(t[i] == cs[j + i]);
    }
    if j + nd < n {
        assert(t[nd as int] == cs[j + nd]);
    }
    proof {
        lemma_digit_run(t, nd as int);
    }
    assert(t.take(nd as int) =~= cs.subrange(j as int, j + nd));
    (nd, m, big)
}

/// Reads one line of pattern text from the position `(x, y)`, pushing the live cells it places
/// onto `cells`; `None` where the line refuses the pattern.
fn parse_rle_line(s: &str, x0: isize, y0: isize, cells: &mut Vec<(isize, isize)>) -> (r: Option<
    (isize, isize),
>)
    requires
        0 <= x0,
        0 <= y0,
        in_reading_order(cells_int(old(cells)@)),
        nonneg_cells(cells_int(old(cells)@)),
        all_before(cells_int(old(cells)@), (x0 as int, y0 as int)),
    ensures
        r is Some <==> rle_line(s@, (x0 as int, y0 as int, cells_int(old(cells)@))) is Some,
        r matches Some((x2, y2)) ==> {
            let st = rle_line(s@, (x0 as int, y0 as int, cells_int(old(cells)@)))->0;
            &&& 0 <= x2
            &&& 0 <= y2
            &&& in_reading_order(cells_int(final(cells)@))
            &&& nonneg_cells(cells_int(final(cells)@))
            &&& all_before(cells_int(final(cells)@), (x2 as int, y2 as int))
            &&& st == (x2 as int, y2 as int, cells_int(final(cells)@))
        },
{
    let ghost cs = s@;
    let ghost goal = rle_line(cs, (x0 as int, y0 as int, cells_int(cells@)));
    let n = s.unicode_len();
    let mut j: usize = 0;
    let mut x = x0;
    let mut y = y0;
    assert(cs.skip(0) =~= cs);
    loop
        invariant
            n == cs.len(),
            cs == s@,
            j <= n,
            0 <= x,
            0 <= y,
            goal == rle_line(cs, (x0 as int, y0 as int, cells_int(old(cells)@))),
            goal == rle_line(cs.skip(j as int), (x as int, y as int, cells_int(cells@))),
            in_reading_order(cells_int(cells@)),
            nonneg_cells(cells_int(cells@)),
            all_before(cells_int(cells@), (x as int, y as int)),
        decreases n - j,
    {
        let ghost t = cs.skip(j as int);
        let ghost st = (x as int, y as int, cells_int(cells@));
        let (nd, m, big) = read_count(s, j, n);
        let counted = nd > 0;
        let mm: usize = if counted {
            m
        } else {
            1
        };
        if counted && big {
            return None;
        }
        if j + nd >= n {
            if counted && mm > 0 {
                return None;
            }
            return Some((x, y));
        }
        let c = s.get_char(j + nd);
        assert(t[nd as int] == c);
        if mm == 0 {
        } else if c == '$' {
            if mm > (isize::MAX as usize) || y > isize::MAX - (mm as isize) {
                return None;
            }
            y = y + (mm as isize);
            x = 0;
        } else if c == 'o' || c == 'b' {
            if mm > (isize::MAX as usize) || x > isize::MAX - (mm as isize) {
                return None;
            }
            if c == 'o' {
                let ghost before0 = cells_int(cells@);
                let mut k: usize = 0;
                while k < mm
                    invariant
                        k <= mm,
                        mm <= isize::MAX,
                        0 <= x,
                        x + mm <= isize::MAX,
                        cells_int(cells@) == before0 + Seq::new(k as nat, |i: int| (x + i, y as int)),
                        in_reading_order(cells_int(cells@)),
                        nonneg_cells(cells_int(cells@)),
                        0 <= y,
                        all_before(cells_int(cells@), ((x + k) as int, y as int)),
                    decreases mm - k,
                {
                    let ghost prev = cells@;
                    cells.push((x + (k as isize), y));
                    assert(cells_int(cells@) =~= cells_int(prev).push(((x + k) as int, y as int)));
                    assert(cells_int(cells@)[prev.len() as int] == ((x + k) as int, y as int));
                    assert forall|i2: int| 0 <= i2 < prev.len() implies cells_int(cells@)[i2] == cells_int(prev)[i2] by {}
                    assert(before0 + Seq::new((k + 1) as nat, |i: int| (x + i, y as int)) =~= (before0
                        + Seq::new(k as nat, |i: int| (x + i, y as int))).push(((x + k) as int, y as int)));
                    k = k + 1;
                }
            }
            x = x + (mm as isize);
        } else if c == '!' && !counted {
        } else {
            return None;
        }
        assert(t.skip(nd + 1int) =~= cs.skip(j + nd + 1));
        j = j + nd + 1;
    }
}

/// The live cells of a pattern file given as its lines: after the comment lines (starting with
/// `#`) a header line starting with `x = `, then the cells in run-length encoding.  `None` where
/// the text is not such a file.
pub fn parse_rle(lines: &Vec<String>) -> (r: Option<Vec<(isize, isize)>>)
    ensures
        r is Some <==> rle_cells(lines_view(lines@)) is Some,
        r matches Some(v) ==> rle_cells(lines_view(lines@)) == Some(cells_int(v@)),
        r matches Some(v) ==> cells_int(v@).no_duplicates() && forall|i: int|
            0 <= i < v.len() ==> 0 <= (#[trigger] v@[i]).0 && 0 <= v@[i].1,
{
    let ghost ls = lines_view(lines@);
    let mut k: usize = 0;
    assert(ls.skip(0) =~= ls);
    while k < lines.len() && starts_with_char(lines[k].as_str(), '#')
        invariant
            k <= lines.len(),
            ls == lines_view(lines@),
            comment_count(ls) == k + comment_count(ls.skip(k as int)),
        decreases lines.len() - k,
    {
        let ghost t = ls.skip(k as int);
        assert(t[0] == lines@[k as int]@);
        assert(t.drop_first() =~= ls.skip(k + 1));
        k = k + 1;
    }
    let ghost t = ls.skip(k as int);
    if k < lines.len() {
        assert(t[0] == lines@[k as int]@);
    }
    assert(comment_count(t) == 0);
    if k >= lines.len() || !is_header(lines[k].as_str()) {
        return None;
    }
    assert(ls[k as int] == lines@[k as int]@);
    let mut cells: Vec<(isize, isize)> = Vec::new();
    let mut x: isize = 0;
    let mut y: isize = 0;
    let mut i: usize = k + 1;
    assert(cells_int(cells@) =~= Seq::<(int, int)>::empty());
    let ghost goal = rle_lines(ls.skip(k + 1int), (0, 0, Seq::empty()));
    assert(cells_int(cells@) =~= Seq::<(int, int)>::empty());
    assert(rle_cells(ls) == match goal {
        Some(st) => Some(st.2),
        None => None,
    });
    while i < lines.len()
        invariant
            rle_cells(ls) == match goal {
                Some(st) => Some(st.2),
                None => None,
            },
            k + 1 <= i <= lines.len(),
            ls == lines_view(lines@),
            0 <= x,
            0 <= y,
            goal == rle_lines(ls.skip(i as int), (x as int, y as int, cells_int(cells@))),
            in_reading_order(cells_int(cells@)),
            nonneg_cells(cells_int(cells@)),
            all_before(cells_int(cells@), (x as int, y as int)),
        decreases lines.len() - i,
    {
        let ghost t = ls.skip(i as int);
        assert(t[0] == lines@[i as int]@);
        assert(t.drop_first() =~= ls.skip(i + 1));
        match parse_rle_line(lines[i].as_str(), x, y, &mut cells) {
            Some((x2, y2)) => {
                x = x2;
                y = y2;
            },
            None => {
                return None;
            },
        }
        i = i + 1;
    }
    assert(ls.skip(i as int).len() == 0);
    assert forall|a: int| 0 <= a < cells@.len() implies 0 <= (#[trigger] cells@[a]).0 && 0 <= cells@[a].1 by {
        assert(cells_int(cells@)[a] == (cells@[a].0 as int, cells@[a].1 as int));
    }
    assert forall|a: int, b: int| 0 <= a < b < cells@.len() implies cells_int(cells@)[a] != cells_int(cells@)[b] by {
        assert(before(cells_int(cells@)[a], cells_int(cells@)[b]));
    }
    Some(cells)
}

// ---------------------------------------------------------------------------------------------
// One generation of Life, with the links of cause and effect it makes
// ---------------------------------------------------------------------------------------------

/// A point of a pattern's history: column, row, generation.
pub type Pt3 = (isize, isize, usize);

pub open spec fn adjacent(p: (int, int), q: (int, int)) -> bool {
    -1 <= p.0 - q.0 <= 1 && -1 <= p.1 - q.1 <= 1
}

/// Number of cells of `s` in the 3x3 block centred on `p`, `p` itself included.
pub open spec fn block_count(s: Seq<(int, int)>, p: (int, int)) -> nat
    decreases s.len(),
{
    if s.len() == 0 {
        0
    } else {
        block_count(s.drop_last(), p) + if adjacent(s.last(), p) {
            1nat
        } else {
            0nat
        }
    }
}

/// Whether some cell of `s` lies in the 3x3 block centred on `p`.
pub open spec fn near_cells(s: Seq<(int, int)>, p: (int, int)) -> bool {
    exists|i: int| 0 <= i < s.len() && adjacent(#[trigger] s[i], p)
}

/// Whether `p` is alive one generation of Life after the live cells `s`: a live cell with two or
/// three live neighbours survives, a dead one with exactly three is born.
pub open spec fn life_next(s: Seq<(int, int)>, p: (int, int)) -> bool {
    let ct = block_count(s, p);
    if s.contains(p) {
        3 <= ct <= 4
    } else {
        ct == 3
    }
}

pub open spec fn xy(a: (int, int, int)) -> (int, int) {
    (a.0, a.1)
}

/// The links that one generation from `s` makes between points `(x, y, 0)` and `(x, y, 1)` of
/// its history: a point that is alive, or that has at least three live cells around it, is linked
/// to each live cell of its block; a point alive in the next generation is linked to itself there.
pub open spec fn step_link(s: Seq<(int, int)>, a: (int, int, int), b: (int, int, int)) -> bool {
    ||| (a.2 == 0 && b.2 == 0 && s.contains(xy(b)) && adjacent(xy(a), xy(b)) && (s.contains(xy(a))
        || block_count(s, xy(a)) >= 3))
    ||| (a.2 == 0 && b.2 == 1 && xy(a) == xy(b) && life_next(s, xy(a)))
}

pub open spec fn pt_int(p: Pt3) -> (int, int, int) {
    (p.0 as int, p.1 as int, p.2 as int)
}

pub open spec fn links_int(v: Seq<(Pt3, Pt3)>) -> Seq<((int, int, int), (int, int, int))> {
    v.map_values(|l: (Pt3, Pt3)| (pt_int(l.0), pt_int(l.1)))
}

/// A coordinate far enough from the ends of `isize` (on any target) for the arithmetic here.
pub open spec fn modest(v: int) -> bool {
    -0x1000_0000 <= v <= 0x1000_0000
}

/// Cells whose coordinates are all modest.
pub open spec fn modest_cells(v: Seq<(isize, isize)>) -> bool {
    forall|i: int| 0 <= i < v.len() ==> modest((#[trigger] v[i]).0 as int) && modest(v[i].1 as int)
}

/// The 9 points of the 3x3 block centred on `c`.
pub open spec fn around(c: (int, int), k: int) -> (int, int) {
    (c.0 + k / 3 - 1, c.1 + k % 3 - 1)
}

proof fn lemma_around(c: (int, int), p: (int, int))
    requires
        adjacent(c, p),
    ensures
        ({
            let k = (p.0 - c.0 + 1) * 3 + (p.1 - c.1 + 1);
            0 <= k < 9 && around(c, k) == p
        }),
{
    let k = (p.0 - c.0 + 1) * 3 + (p.1 - c.1 + 1);
    assert(k / 3 == p.0 - c.0 + 1 && k % 3 == p.1 - c.1 + 1);
}

proof fn lemma_near_of_count(s: Seq<(int, int)>, p: (int, int))
    requires
        block_count(s, p) > 0,
    ensures
        near_cells(s, p),
    decreases s.len(),
{
    if adjacent(s.last(), p) {
        assert(s[s.len() - 1] == s.last());
    } else {
        lemma_near_of_count(s.drop_last(), p);
        let i = choose|i: int| 0 <= i < s.drop_last().len() && adjacent(#[trigger] s.drop_last()[i], p);
        assert(s[i] == s.drop_last()[i]);
    }
}

proof fn lemma_near_of_contains(s: Seq<(int, int)>, p: (int, int))
    requires
        s.contains(p),
    ensures
        near_cells(s, p),
{
    let i = choose|i: int| 0 <= i < s.len() && s[i] == p;
    assert(adjacent(s[i], p));
}

fn contains2(v: &Vec<(isize, isize)>, p: (isize, isize)) -> (r: bool)
    ensures
        r == cells_int(v@).contains((p.0 as int, p.1 as int)),
{
    let ghost pi = (p.0 as int, p.1 as int);
    let mut i: usize = 0;
    while i < v.len()
        invariant
            i <= v.len(),
            pi == (p.0 as int, p.1 as int),
            forall|j: int| 0 <= j < i ==> cells_int(v@)[j] != pi,
        decreases v.len() - i,
    {
        if v[i].0 == p.0 && v[i].1 == p.1 {
            assert(cells_int(v@)[i as int] == pi);
            return true;
        }
        i = i + 1;
    }
    false
}

/// The points within one step of some cell of `cells`, each once.
fn candidates(cells: &Vec<(isize, isize)>) -> (r: Vec<(isize, isize)>)
    requires
        modest_cells(cells@),
    ensures
        cells_int(r@).no_duplicates(),
        forall|p: (int, int)| cells_int(r@).contains(p) <==> near_cells(cells_int(cells@), p),
{
    let ghost s = cells_int(cells@);
    let mut r: Vec<(isize, isize)> = Vec::new();
    let mut i: usize = 0;
    while i < cells.len()
        invariant
            i <= cells.len(),
            s == cells_int(cells@),
            modest_cells(cells@),
            cells_int(r@).no_duplicates(),
            forall|p: (int, int)|
                cells_int(r@).contains(p) <==> exists|j: int| 0 <= j < i && adjacent(#[trigger] s[j], p),
        decreases cells.len() - i,
    {
        let (x, y) = cells[i];
        assert(s[i as int] == (x as int, y as int));
        let mut k: usize = 0;
        while k < 9
            invariant
                k <= 9,
                i < cells.len(),
                s == cells_int(cells@),
                s[i as int] == (x as int, y as int),
                modest(x as int),
                modest(y as int),
                cells_int(r@).no_duplicates(),
                forall|p: (int, int)|
                    cells_int(r@).contains(p) <==> (exists|j: int| 0 <= j < i && adjacent(#[trigger] s[j], p))
                        || exists|k2: int| 0 <= k2 < k && p == #[trigger] around(s[i as int], k2),
            decreases 9 - k,
        {
            let p = ((x - 1) + ((k / 3) as isize), (y - 1) + ((k % 3) as isize));
            let ghost pi = (p.0 as int, p.1 as int);
            assert(pi == around(s[i as int], k as int));
            if !contains2(&r, p) {
                let ghost prev = cells_int(r@);
                r.push(p);
                assert(cells_int(r@) =~= prev.push(pi));
                assert forall|q: (int, int)|
                    cells_int(r@).contains(q) <==> (exists|j: int| 0 <= j < i && adjacent(#[trigger] s[j], q))
                        || exists|k2: int| 0 <= k2 < k + 1 && q == #[trigger] around(s[i as int], k2) by {
                    if q == pi {
                        assert(cells_int(r@)[prev.len() as int] == q);
                    }
                    if prev.contains(q) {
                        let j = choose|j: int| 0 <= j < prev.len() && prev[j] == q;
                        assert(cells_int(r@)[j] == q);
                    }
                }
            } else {
                assert forall|q: (int, int)|
                    cells_int(r@).contains(q) <==> (exists|j: int| 0 <= j < i && adjacent(#[trigger] s[j], q))
                        || exists|k2: int| 0 <= k2 < k + 1 && q == #[trigger] around(s[i as int], k2) by {
                    if exists|k2: int| 0 <= k2 < k + 1 && q == #[trigger] around(s[i as int], k2) {
                        let k2 = choose|k2: int| 0 <= k2 < k + 1 && q == #[trigger] around(s[i as int], k2);
                        if k2 == k {
                            assert(q == pi);
                        }
                    }
                }
            }
            k = k + 1;
        }
        assert forall|q: (int, int)|
            cells_int(r@).contains(q) <==> exists|j: int| 0 <= j < i + 1 && adjacent(#[trigger] s[j], q) by {
            if adjacent(s[i as int], q) {
                lemma_around(s[i as int], q);
                let k2 = (q.0 - s[i as int].0 + 1) * 3 + (q.1 - s[i as int].1 + 1);
                assert(q == around(s[i as int], k2));
            }
            if exists|k2: int| 0 <= k2 < 9 && q == #[trigger] around(s[i as int], k2) {
                let k2 = choose|k2: int| 0 <= k2 < 9 && q == #[trigger] around(s[i as int], k2);
                assert(adjacent(s[i as int], q));
            }
        }
        i = i + 1;
    }
    r
}

fn adjacent_exec(p: (isize, isize), q: (isize, isize)) -> (r: bool)
    requires
        -0x2000_0000 <= p.0 <= 0x2000_0000,
        -0x2000_0000 <= p.1 <= 0x2000_0000,
        -0x2000_0000 <= q.0 <= 0x2000_0000,
        -0x2000_0000 <= q.1 <= 0x2000_0000,
    ensures
        r == adjacent((p.0 as int, p.1 as int), (q.0 as int, q.1 as int)),
{
    let dx = p.0 - q.0;
    let dy = p.1 - q.1;
    -1 <= dx && dx <= 1 && -1 <= dy && dy <= 1
}

/// The number of cells of `cells` in the block centred on `p`, and whether `p` is one of them.
fn block_at(cells: &Vec<(isize, isize)>, p: (isize, isize)) -> (r: (usize, bool))
    requires
        modest_cells(cells@),
        -0x2000_0000 <= p.0 <= 0x2000_0000,
        -0x2000_0000 <= p.1 <= 0x2000_0000,
    ensures
        r.0 == block_count(cells_int(cells@), (p.0 as int, p.1 as int)),
        r.1 == cells_int(cells@).contains((p.0 as int, p.1 as int)),
{
    let ghost s = cells_int(cells@);
    let ghost pi = (p.0 as int, p.1 as int);
    let mut ct: usize = 0;
    let mut found = false;
    let mut i: usize = 0;
    assert(s.take(0) =~= Seq::<(int, int)>::empty());
    while i < cells.len()
        invariant
            i <= cells.len(),
            s == cells_int(cells@),
            modest_cells(cells@),
            pi == (p.0 as int, p.1 as int),
            -0x2000_0000 <= p.0 <= 0x2000_0000,
            -0x2000_0000 <= p.1 <= 0x2000_0000,
            ct <= i,
            ct == block_count(s.take(i as int), pi),
            found == s.take(i as int).contains(pi),
        decreases cells.len() - i,
    {
        let c = cells[i];
        assert(s[i as int] == (c.0 as int, c.1 as int));
        assert(s.take(i + 1).drop_last() =~= s.take(i as int));
        assert(s.take(i + 1).last() == s[i as int]);
        if adjacent_exec(c, p) {
            ct = ct + 1;
        }
        if c.0 == p.0 && c.1 == p.1 {
            found = true;
            assert(s.take(i + 1)[i as int] == pi);
        } else {
            assert forall|j: int| 0 <= j < i + 1 && s.take(i + 1)[j] == pi implies s.take(
                i as int,
            )[j] == pi by {}
        }
        proof {
            if s.take(i as int).contains(pi) {
                let j = choose|j: int| 0 <= j < i && s.take(i as int)[j] == pi;
                assert(s.take(i + 1)[j] == pi);
            }
        }
        i = i + 1;
    }
    assert(s.take(i as int) =~= s);
    (ct, found)
}

/// One generation of Life from the live cells `cells`: the live cells after it, and the links it
/// makes between points of the pattern's history (see `step_link`), in no particular order.
pub fn step(cells: &Vec<(isize, isize)>) -> (r: (Vec<(isize, isize)>, Vec<(Pt3, Pt3)>))
    requires
        modest_cells(cells@),
    ensures
        cells_int(r.0@).no_duplicates(),
        forall|p: (int, int)| cells_int(r.0@).contains(p) <==> life_next(cells_int(cells@), p),
        forall|i: int|
            0 <= i < r.1.len() ==> step_link(
                cells_int(cells@),
                (#[trigger] links_int(r.1@)[i]).0,
                links_int(r.1@)[i].1,
            ),
        forall|a: (int, int, int), b: (int, int, int)|
            step_link(cells_int(cells@), a, b) ==> links_int(r.1@).contains((a, b)),
{
    let ghost s = cells_int(cells@);
    let cand = candidates(cells);
    let ghost ci_s = cells_int(cand@);
    let mut next: Vec<(isize, isize)> = Vec::new();
    let mut links: Vec<(Pt3, Pt3)> = Vec::new();
    let mut ci: usize = 0;
    while ci < cand.len()
        invariant
            ci <= cand.len(),
            s == cells_int(cells@),
            ci_s == cells_int(cand@),
            modest_cells(cells@),
            ci_s.no_duplicates(),
            forall|p: (int, int)| ci_s.contains(p) <==> near_cells(s, p),
            cells_int(next@).no_duplicates(),
            forall|q: (int, int)|
                cells_int(next@).contains(q) <==> exists|cj: int|
                    0 <= cj < ci && #[trigger] ci_s[cj] == q && life_next(s, q),
            forall|i: int|
                0 <= i < links.len() ==> step_link(
                    s,
                    (#[trigger] links_int(links@)[i]).0,
                    links_int(links@)[i].1,
                ),
            forall|a: (int, int, int), b: (int, int, int)|
                step_link(s, a, b) && (exists|cj: int| 0 <= cj < ci && #[trigger] ci_s[cj] == xy(a))
                    ==> links_int(links@).contains((a, b)),
        decreases cand.len() - ci,
    {
        let p = cand[ci];
        let ghost pi = (p.0 as int, p.1 as int);
        assert(ci_s[ci as int] == pi);
        assert(ci_s.contains(pi));
        let ghost wi = choose|i: int| 0 <= i < s.len() && adjacent(#[trigger] s[i], pi);
        assert(modest(cells@[wi].0 as int) && modest(cells@[wi].1 as int));
        assert(s[wi] == (cells@[wi].0 as int, cells@[wi].1 as int));
        let (ct, cur) = block_at(cells, p);
        let ghost links0 = links_int(links@);
        if cur || ct >= 3 {
            let mut ni: usize = 0;
            while ni < cells.len()
                invariant
                    ni <= cells.len(),
                    s == cells_int(cells@),
                    modest_cells(cells@),
                    pi == (p.0 as int, p.1 as int),
                    -0x2000_0000 <= p.0 <= 0x2000_0000,
                    -0x2000_0000 <= p.1 <= 0x2000_0000,
                    s.contains(pi) || block_count(s, pi) >= 3,
                    forall|i: int|
                        0 <= i < links.len() ==> step_link(
                            s,
                            (#[trigger] links_int(links@)[i]).0,
                            links_int(links@)[i].1,
                        ),
                    forall|l| links0.contains(l) ==> links_int(links@).contains(l),
                    forall|nj: int|
                        0 <= nj < ni && adjacent(pi, #[trigger] s[nj]) ==> links_int(links@).contains(
                            ((pi.0, pi.1, 0int), (s[nj].0, s[nj].1, 0int)),
                        ),
                decreases cells.len() - ni,
            {
                let n = cells[ni];
                assert(s[ni as int] == (n.0 as int, n.1 as int));
                if adjacent_exec(p, n) {
                    let ghost prev = links_int(links@);
                    let l = ((p.0, p.1, 0usize), (n.0, n.1, 0usize));
                    links.push(l);
                    assert(links_int(links@) =~= prev.push((pt_int(l.0), pt_int(l.1))));
                    assert(links_int(links@)[prev.len() as int] == (pt_int(l.0), pt_int(l.1)));
                    assert(s.contains(xy(pt_int(l.1))));
                    assert forall|x| prev.contains(x) implies links_int(links@).contains(x) by {
                        let j = choose|j: int| 0 <= j < prev.len() && prev[j] == x;
                        assert(links_int(links@)[j] == x);
                    }
                }
                ni = ni + 1;
            }
        }
        let fut = if cur {
            3 <= ct && ct <= 4
        } else {
            ct == 3
        };
        assert(fut == life_next(s, pi));
        let ghost links1 = links_int(links@);
        if fut {
            let ghost prevn = cells_int(next@);
            next.push(p);
            assert(cells_int(next@) =~= prevn.push(pi));
            assert forall|q: (int, int)|
                cells_int(next@).contains(q) <==> exists|cj: int|
                    0 <= cj < ci + 1 && #[trigger] ci_s[cj] == q && life_next(s, q) by {
                if prevn.contains(q) {
                    let j = choose|j: int| 0 <= j < prevn.len() && prevn[j] == q;
                    assert(cells_int(next@)[j] == q);
                }
                if q == pi {
                    assert(cells_int(next@)[prevn.len() as int] == q);
                }
            }
            assert(!prevn.contains(pi));
            let l = ((p.0, p.1, 0usize), (p.0, p.1, 1usize));
            links.push(l);
            assert(links_int(links@) =~= links1.push((pt_int(l.0), pt_int(l.1))));
            assert(links_int(links@)[links1.len() as int] == (pt_int(l.0), pt_int(l.1)));
            assert forall|x| links1.contains(x) implies links_int(links@).contains(x) by {
                let j = choose|j: int| 0 <= j < links1.len() && links1[j] == x;
                assert(links_int(links@)[j] == x);
            }
        }
        assert forall|a: (int, int, int), b: (int, int, int)|
            step_link(s, a, b) && (exists|cj: int| 0 <= cj < ci + 1 && #[trigger] ci_s[cj] == xy(a))
                implies links_int(links@).contains((a, b)) by {
            let cj = choose|cj: int| 0 <= cj < ci + 1 && #[trigger] ci_s[cj] == xy(a);
            if cj < ci {
                assert(links0.contains((a, b)));
                assert(links1.contains((a, b)));
            } else {
                assert(xy(a) == pi);
                if b.2 == 0 {
                    let nj = choose|nj: int| 0 <= nj < s.len() && s[nj] == xy(b);
                    assert(adjacent(pi, s[nj]));
                    assert(a == (pi.0, pi.1, 0int));
                    assert(b == (s[nj].0, s[nj].1, 0int));
                    assert(links1.contains((a, b)));
                } else {
                    assert(a == (pi.0, pi.1, 0int) && b == (pi.0, pi.1, 1int));
                }
            }
        }
        ci = ci + 1;
    }
    assert forall|p: (int, int)| cells_int(next@).contains(p) <==> life_next(s, p) by {
        if life_next(s, p) {
            if s.contains(p) {
                lemma_near_of_contains(s, p);
            } else {
                lemma_near_of_count(s, p);
            }
            let cj = choose|cj: int| 0 <= cj < ci_s.len() && ci_s[cj] == p;
        }
    }
    assert forall|a: (int, int, int), b: (int, int, int)|
        step_link(s, a, b) implies links_int(links@).contains((a, b)) by {
        if b.2 == 0 {
            let nj = choose|nj: int| 0 <= nj < s.len() && s[nj] == xy(b);
            assert(adjacent(s[nj], xy(a)));
            assert(near_cells(s, xy(a)));
        } else if s.contains(xy(a)) {
            lemma_near_of_contains(s, xy(a));
        } else {
            lemma_near_of_count(s, xy(a));
        }
        let cj = choose|cj: int| 0 <= cj < ci_s.len() && ci_s[cj] == xy(a);
    }
    (next, links)
}

// ---------------------------------------------------------------------------------------------
// Connected components of a linked set of points
// ---------------------------------------------------------------------------------------------

/// Whether `l` links `a` and `b`, either way round.
pub open spec fn linked(l: Seq<(Pt3, Pt3)>, a: Pt3, b: Pt3) -> bool {
    exists|i: int| 0 <= i < l.len() && (l[i] == (a, b) || l[i] == (b, a))
}

pub open spec fn walk_step(l: Seq<(Pt3, Pt3)>, w: Seq<Pt3>, i: int) -> bool {
    linked(l, w[i], w[i + 1])
}

/// A walk along the links of `l`.
pub open spec fn is_walk(l: Seq<(Pt3, Pt3)>, w: Seq<Pt3>) -> bool {
    w.len() >= 1 && forall|i: int| 0 <= i < w.len() - 1 ==> #[trigger] walk_step(l, w, i)
}

/// Whether a walk along the links of `l` leads from `a` to `b`.
pub open spec fn connected(l: Seq<(Pt3, Pt3)>, a: Pt3, b: Pt3) -> bool {
    exists|w: Seq<Pt3>| is_walk(l, w) && w[0] == a && w.last() == b
}

/// Whether every point linked to a point of `a` is in `a`.
pub open spec fn closed(l: Seq<(Pt3, Pt3)>, a: Seq<Pt3>) -> bool {
    forall|u: Pt3, v: Pt3| #![trigger a.contains(u), linked(l, u, v)] a.contains(u) && linked(l, u, v) ==> a.contains(v)
}

proof fn lemma_walk_one(l: Seq<(Pt3, Pt3)>, a: Pt3)
    ensures
        connected(l, a, a),
{
    let w = seq![a];
    assert(is_walk(l, w) && w[0] == a && w.last() == a);
}

proof fn lemma_walk_push(l: Seq<(Pt3, Pt3)>, a: Pt3, b: Pt3, c: Pt3)
    requires
        connected(l, a, b),
        linked(l, b, c),
    ensures
        connected(l, a, c),
{
    let w = choose|w: Seq<Pt3>| is_walk(l, w) && w[0] == a && w.last() == b;
    let w2 = w.push(c);
    assert forall|i: int| 0 <= i < w2.len() - 1 implies #[trigger] walk_step(l, w2, i) by {
        if i < w.len() - 1 {
            assert(walk_step(l, w, i));
        }
    }
    assert(is_walk(l, w2) && w2[0] == a && w2.last() == c);
}

proof fn lemma_walk_reverse(l: Seq<(Pt3, Pt3)>, a: Pt3, b: Pt3)
    requires
        connected(l, a, b),
    ensures
        connected(l, b, a),
{
    let w = choose|w: Seq<Pt3>| is_walk(l, w) && w[0] == a && w.last() == b;
    let n = w.len();
    let w2 = Seq::new(n, |i: int| w[n - 1 - i]);
    assert forall|i: int| 0 <= i < w2.len() - 1 implies #[trigger] walk_step(l, w2, i) by {
        let j = n - 2 - i;
        assert(walk_step(l, w, j));
        let k = choose|k: int| 0 <= k < l.len() && (l[k] == (w[j], w[j + 1]) || l[k] == (w[j + 1], w[j]));
        assert(w2[i] == w[j + 1] && w2[i + 1] == w[j]);
    }
    assert(is_walk(l, w2) && w2[0] == b && w2.last() == a);
}

proof fn lemma_walk_join(l: Seq<(Pt3, Pt3)>, a: Pt3, b: Pt3, c: Pt3)
    requires
        connected(l, a, b),
        connected(l, b, c),
    ensures
        connected(l, a, c),
{
    let w1 = choose|w: Seq<Pt3>| is_walk(l, w) && w[0] == a && w.last() == b;
    let w2 = choose|w: Seq<Pt3>| is_walk(l, w) && w[0] == b && w.last() == c;
    let w = w1 + w2.drop_first();
    assert forall|i: int| 0 <= i < w.len() - 1 implies #[trigger] walk_step(l, w, i) by {
        if i < w1.len() - 1 {
            assert(walk_step(l, w1, i));
        } else {
            let j = i - (w1.len() - 1);
            assert(walk_step(l, w2, j));
            assert(w[i] == w2[j] && w[i + 1] == w2[j + 1]);
        }
    }
    assert(is_walk(l, w) && w[0] == a && w.last() == c);
}

proof fn lemma_closed_walk(l: Seq<(Pt3, Pt3)>, a: Seq<Pt3>, w: Seq<Pt3>, k: int)
    requires
        closed(l, a),
        is_walk(l, w),
        a.contains(w[0]),
        0 <= k < w.len(),
    ensures
        a.contains(w[k]),
    decreases k,
{
    if k > 0 {
        lemma_closed_walk(l, a, w, k - 1);
        assert(walk_step(l, w, k - 1));
    }
}

proof fn lemma_closed_reach(l: Seq<(Pt3, Pt3)>, a: Seq<Pt3>, x: Pt3, y: Pt3)
    requires
        closed(l, a),
        a.contains(x),
        connected(l, x, y),
    ensures
        a.contains(y),
{
    let w = choose|w: Seq<Pt3>| is_walk(l, w) && w[0] == x && w.last() == y;
    lemma_closed_walk(l, a, w, w.len() - 1);
}

proof fn lemma_nodup_bound(a: Seq<Pt3>, u: Seq<Pt3>)
    requires
        a.no_duplicates(),
        forall|x: Pt3| a.contains(x) ==> u.contains(x),
    ensures
        a.len() <= u.len(),
{
    broadcast use vstd::seq_lib::seq_to_set_is_finite;
    a.unique_seq_to_set();
    u.lemma_cardinality_of_set();
    assert(a.to_set().subset_of(u.to_set()));
    vstd::set_lib::lemma_len_subset(a.to_set(), u.to_set());
}

fn same_pt(a: Pt3, b: Pt3) -> (r: bool)
    ensures
        r == (a == b),
{
    a.0 == b.0 && a.1 == b.1 && a.2 == b.2
}

fn contains_pt(v: &Vec<Pt3>, p: Pt3) -> (r: bool)
    ensures
        r == v@.contains(p),
{
    let mut i: usize = 0;
    while i < v.len()
        invariant
            i <= v.len(),
            forall|j: int| 0 <= j < i ==> v@[j] != p,
        decreases v.len() - i,
    {
        if same_pt(v[i], p) {
            return true;
        }
        i = i + 1;
    }
    false
}

/// `r` is `ss` split into the connected components of the links `l`: each component is the points
/// of `ss` that walks along `l` reach from its first point (walks may pass through points outside
/// `ss`), every point of `ss` is in one, and no two first points are connected.
pub open spec fn components_of(ss: Seq<Pt3>, l: Seq<(Pt3, Pt3)>, r: Seq<Seq<Pt3>>) -> bool {
    &&& forall|k: int| 0 <= k < r.len() ==> (#[trigger] r[k]).len() > 0 && r[k].no_duplicates()
    &&& forall|k: int, x: Pt3|
        0 <= k < r.len() ==> (#[trigger] r[k].contains(x) <==> ss.contains(x) && connected(l, r[k][0], x))
    &&& forall|x: Pt3| ss.contains(x) ==> exists|k: int| 0 <= k < r.len() && #[trigger] r[k].contains(x)
    &&& forall|j: int, k: int| 0 <= j < k < r.len() ==> !connected(l, (#[trigger] r[j])[0], (#[trigger] r[k])[0])
}

/// Every point that some link endpoint or some point of `ss` is.
pub open spec fn link_points(ss: Seq<Pt3>, l: Seq<(Pt3, Pt3)>) -> Seq<Pt3> {
    ss + l.map_values(|e: (Pt3, Pt3)| e.0) + l.map_values(|e: (Pt3, Pt3)| e.1)
}

/// The points of `ss` split by the links of `l` into connected components: each component is
/// the points of `ss` that walks along `l` reach from its first point (walks may pass through
/// points outside `ss`), every point of `ss` is in one, and no two first points are connected.
pub fn components(ss: &Vec<Pt3>, l: &Vec<(Pt3, Pt3)>) -> (r: Vec<Vec<Pt3>>)
    requires
        ss@.no_duplicates(),
    ensures
        forall|k: int|
            0 <= k < r.len() ==> (#[trigger] r@[k])@.len() > 0 && r@[k]@.no_duplicates(),
        forall|k: int, x: Pt3|
            0 <= k < r.len() ==> (#[trigger] r@[k]@.contains(x) <==> ss@.contains(x) && connected(
                l@,
                r@[k]@[0],
                x,
            )),
        forall|x: Pt3| ss@.contains(x) ==> exists|k: int| 0 <= k < r.len() && #[trigger] r@[k]@.contains(x),
        forall|j: int, k: int|
            0 <= j < k < r.len() ==> !connected(l@, (#[trigger] r@[j])@[0], (#[trigger] r@[k])@[0]),
        components_of(ss@, l@, r@.map_values(|v: Vec<Pt3>| v@)),
{
    let ghost ls = l@;
    let ghost u = link_points(ss@, l@);
    let mut already: Vec<Pt3> = Vec::new();
    let mut ret: Vec<Vec<Pt3>> = Vec::new();
    let mut si: usize = 0;
    while si < ss.len()
        invariant
            si <= ss.len(),
            ls == l@,
            u == link_points(ss@, l@),
            ss@.no_duplicates(),
            already@.no_duplicates(),
            closed(ls, already@),
            forall|x: Pt3| already@.contains(x) ==> u.contains(x),
            forall|j: int| 0 <= j < si ==> already@.contains(#[trigger] ss@[j]),
            forall|x: Pt3|
                ss@.contains(x) && already@.contains(x) ==> exists|k: int|
                    0 <= k < ret.len() && #[trigger] ret@[k]@.contains(x),
            forall|k: int|
                0 <= k < ret.len() ==> (#[trigger] ret@[k])@.len() > 0 && ret@[k]@.no_duplicates()
                    && already@.contains(ret@[k]@[0]),
            forall|k: int, x: Pt3|
                0 <= k < ret.len() ==> (#[trigger] ret@[k]@.contains(x) <==> ss@.contains(x)
                    && connected(ls, ret@[k]@[0], x)),
            forall|j: int, k: int|
                0 <= j < k < ret.len() ==> !connected(ls, (#[trigger] ret@[j])@[0], (#[trigger] ret@[k])@[0]),
        decreases ss.len() - si,
    {
        let s0 = ss[si];
        if contains_pt(&already, s0) {
            si = si + 1;
            continue;
        }
        let ghost old_already = already@;
        assert(ss@.contains(s0) && u.contains(s0)) by {
            assert(ss@[si as int] == s0);
            assert(u[si as int] == s0);
        }
        proof {
            lemma_walk_one(ls, s0);
        }
        already.push(s0);
        assert(already@ =~= old_already.push(s0));
        assert(already@[old_already.len() as int] == s0);
        assert forall|x: Pt3| old_already.contains(x) implies already@.contains(x) by {
            let j = choose|j: int| 0 <= j < old_already.len() && old_already[j] == x;
            assert(already@[j] == x);
        }
        assert forall|x: Pt3| already@.contains(x) && !old_already.contains(x) implies x == s0 by {
            let j = choose|j: int| 0 <= j < already@.len() && already@[j] == x;
            if j < old_already.len() {
                assert(old_already[j] == x);
            }
        }
        let mut comp: Vec<Pt3> = Vec::new();
        comp.push(s0);
        assert(comp@ =~= seq![s0]);
        assert(comp@[0] == s0);
        let mut q: Vec<Pt3> = Vec::new();
        let mut cur = s0;
        let mut pending = true;
        assert forall|a: Pt3, b: Pt3|
            already@.contains(a) && linked(ls, a, b) && a != cur implies already@.contains(b) || q@.contains(b) by {
            assert(old_already.contains(a));
        }
        loop
            invariant
                ls == l@,
                u == link_points(ss@, l@),
                ss@.no_duplicates(),
                ss@.contains(s0),
                !old_already.contains(s0),
                closed(ls, old_already),
                forall|x: Pt3| old_already.contains(x) ==> u.contains(x),
                already@.no_duplicates(),
                forall|x: Pt3| old_already.contains(x) ==> already@.contains(x),
                forall|x: Pt3| already@.contains(x) ==> u.contains(x),
                forall|x: Pt3| q@.contains(x) ==> u.contains(x),
                already@.contains(s0),
                already@.contains(cur),
                u.contains(cur),
                connected(ls, s0, cur),
                forall|x: Pt3| q@.contains(x) ==> connected(ls, s0, x),
                forall|x: Pt3| already@.contains(x) && !old_already.contains(x) ==> connected(ls, s0, x),
                forall|x: Pt3| (#[trigger] comp@.contains(x) <==> already@.contains(x) && !old_already.contains(x) && ss@.contains(x)),
                comp@.len() > 0,
                comp@[0] == s0,
                comp@.no_duplicates(),
                forall|a: Pt3, b: Pt3|
                    #![trigger already@.contains(a), linked(ls, a, b)]
                    already@.contains(a) && linked(ls, a, b) && (!pending || a != cur) ==> already@.contains(b) || q@.contains(b),
            ensures
                q@.len() == 0,
                !pending,
            decreases u.len() - already@.len(), if pending { 1int } else { 0int }, q@.len(),
        {
            proof {
                lemma_nodup_bound(already@, u);
            }
            if pending {
                let ghost q0 = q@;
                let mut i: usize = 0;
                while i < l.len()
                    invariant
                        i <= l.len(),
                        ls == l@,
                        u == link_points(ss@, l@),
                        connected(ls, s0, cur),
                        forall|x: Pt3| q0.contains(x) ==> q@.contains(x),
                        forall|x: Pt3| q@.contains(x) ==> u.contains(x),
                        forall|x: Pt3| q@.contains(x) ==> connected(ls, s0, x),
                        forall|b: Pt3|
                            (exists|j: int| 0 <= j < i && (ls[j] == (cur, b) || ls[j] == (b, cur))) ==> q@.contains(b),
                        q@.len() >= q0.len(),
                    decreases l.len() - i,
                {
                    let ghost q_top = q@;
                    let (a, b) = l[i];
                    assert(ls[i as int] == (a, b));
                    assert(u[ss@.len() + i] == a);
                    assert(u[ss@.len() + l@.len() + i] == b);
                    if same_pt(a, cur) {
                        assert(linked(ls, cur, b));
                        proof {
                            lemma_walk_push(ls, s0, cur, b);
                        }
                        let ghost prev = q@;
                        q.push(b);
                        assert(q@ =~= prev.push(b));
                        assert(q@[prev.len() as int] == b);
                        assert forall|x: Pt3| prev.contains(x) implies q@.contains(x) by {
                            let j = choose|j: int| 0 <= j < prev.len() && prev[j] == x;
                            assert(q@[j] == x);
                        }
                    }
                    if same_pt(b, cur) {
                        assert(linked(ls, cur, a));
                        proof {
                            lemma_walk_push(ls, s0, cur, a);
                        }
                        let ghost prev = q@;
                        q.push(a);
                        assert(q@ =~= prev.push(a));
                        assert(q@[prev.len() as int] == a);
                        assert forall|x: Pt3| prev.contains(x) implies q@.contains(x) by {
                            let j = choose|j: int| 0 <= j < prev.len() && prev[j] == x;
                            assert(q@[j] == x);
                        }
                    }
                    assert(a == cur ==> q@.contains(b));
                    assert(b == cur ==> q@.contains(a));
                    assert(forall|x: Pt3| q_top.contains(x) ==> q@.contains(x));
                    assert forall|b2: Pt3|
                        (exists|j: int| 0 <= j < i + 1 && (ls[j] == (cur, b2) || ls[j] == (b2, cur))) implies q@.contains(b2) by {
                        let j = choose|j: int| 0 <= j < i + 1 && (ls[j] == (cur, b2) || ls[j] == (b2, cur));
                        if j < i {
                            assert(exists|j2: int| 0 <= j2 < i && (ls[j2] == (cur, b2) || ls[j2] == (b2, cur)));
                            assert(q_top.contains(b2));
                        } else if ls[j] == (cur, b2) {
                            assert(b2 == b);
                        } else {
                            assert(b2 == a);
                        }
                    }
                    i = i + 1;
                }
                assert forall|a: Pt3, b: Pt3|
                    #![trigger already@.contains(a), linked(ls, a, b)]
                    already@.contains(a) && linked(ls, a, b) implies already@.contains(b) || q@.contains(b) by {
                    if a == cur {
                        let j = choose|j: int| 0 <= j < ls.len() && (ls[j] == (a, b) || ls[j] == (b, a));
                        assert(exists|j2: int| 0 <= j2 < l.len() && (ls[j2] == (cur, b) || ls[j2] == (b, cur)));
                    } else {
                        if !already@.contains(b) {
                            assert(q0.contains(b));
                        }
                    }
                }
                pending = false;
                continue;
            }
            let ghost q_before = q@;
            match q.pop() {
                None => {
                    break;
                },
                Some(s1) => {
                    assert(q_before =~= q@.push(s1));
                    assert(q_before[q@.len() as int] == s1);
                    assert(q_before.contains(s1));
                    assert forall|x: Pt3| q_before.contains(x) && x != s1 implies q@.contains(x) by {
                        let j = choose|j: int| 0 <= j < q_before.len() && q_before[j] == x;
                        assert(j < q@.len());
                        assert(q@[j] == x);
                    }
                    assert forall|x: Pt3| q@.contains(x) implies q_before.contains(x) by {
                        let j = choose|j: int| 0 <= j < q@.len() && q@[j] == x;
                        assert(q_before[j] == x);
                    }
                    if contains_pt(&already, s1) {
                        assert forall|a: Pt3, b: Pt3|
                            #![trigger already@.contains(a), linked(ls, a, b)]
                            already@.contains(a) && linked(ls, a, b) implies already@.contains(b) || q@.contains(b) by {
                            if !already@.contains(b) {
                                assert(q_before.contains(b));
                            }
                        }
                        continue;
                    }
                    assert(!comp@.contains(s1));
                    let ghost prev_a = already@;
                    already.push(s1);
                    assert(already@ =~= prev_a.push(s1));
                    assert(already@[prev_a.len() as int] == s1);
                    assert forall|x: Pt3| prev_a.contains(x) implies already@.contains(x) by {
                        let j = choose|j: int| 0 <= j < prev_a.len() && prev_a[j] == x;
                        assert(already@[j] == x);
                    }
                    assert forall|x: Pt3| already@.contains(x) implies prev_a.contains(x) || x == s1 by {
                        let j = choose|j: int| 0 <= j < already@.len() && already@[j] == x;
                        if j < prev_a.len() {
                            assert(prev_a[j] == x);
                        }
                    }
                    let ghost prev_c = comp@;
                    let in_ss = contains_pt(ss, s1);
                    if in_ss {
                        comp.push(s1);
                        assert(comp@ =~= prev_c.push(s1));
                        assert(comp@[prev_c.len() as int] == s1);
                        assert forall|x: Pt3| prev_c.contains(x) implies comp@.contains(x) by {
                            let j = choose|j: int| 0 <= j < prev_c.len() && prev_c[j] == x;
                            assert(comp@[j] == x);
                        }
                        assert forall|x: Pt3| comp@.contains(x) implies prev_c.contains(x) || x == s1 by {
                            let j = choose|j: int| 0 <= j < comp@.len() && comp@[j] == x;
                            if j < prev_c.len() {
                                assert(prev_c[j] == x);
                            }
                        }
                        assert(comp@[0] == s0);
                    }
                    assert forall|x: Pt3| (#[trigger] comp@.contains(x) <==> already@.contains(x)
                        && !old_already.contains(x) && ss@.contains(x)) by {
                        if x == s1 {
                            if in_ss {
                                assert(comp@[prev_c.len() as int] == s1);
                            }
                        } else {
                            assert(comp@.contains(x) <==> prev_c.contains(x));
                            assert(already@.contains(x) <==> prev_a.contains(x));
                        }
                    }
                    proof {
                        lemma_nodup_bound(already@, u);
                    }
                    assert forall|a: Pt3, b: Pt3|
                        #![trigger already@.contains(a), linked(ls, a, b)]
                        already@.contains(a) && linked(ls, a, b) && a != s1 implies already@.contains(b) || q@.contains(b) by {
                        assert(prev_a.contains(a));
                        if !already@.contains(b) {
                            assert(!prev_a.contains(b));
                            assert(q_before.contains(b));
                        }
                    }
                    cur = s1;
                    pending = true;
                },
            }
        }
        assert forall|a: Pt3, b: Pt3|
            #![trigger already@.contains(a), linked(ls, a, b)]
            already@.contains(a) && linked(ls, a, b) implies already@.contains(b) by {
            assert(!q@.contains(b));
        }
        assert(closed(ls, already@));
        assert forall|x: Pt3| comp@.contains(x) <==> ss@.contains(x) && connected(ls, s0, x) by {
            if comp@.contains(x) {
                assert(already@.contains(x) && !old_already.contains(x));
            }
            if ss@.contains(x) && connected(ls, s0, x) {
                lemma_closed_reach(ls, already@, s0, x);
                if old_already.contains(x) {
                    lemma_walk_reverse(ls, s0, x);
                    lemma_closed_reach(ls, old_already, x, s0);
                }
                assert(already@.contains(x) && !old_already.contains(x));
            }
        }
        let ghost old_ret = ret@;
        ret.push(comp);
        assert(ret@ =~= old_ret.push(comp));
        assert(ret@[old_ret.len() as int]@ == comp@);
        assert forall|k: int, x: Pt3|
            0 <= k < ret.len() implies (#[trigger] ret@[k]@.contains(x) <==> ss@.contains(x)
                && connected(ls, ret@[k]@[0], x)) by {
            if k < old_ret.len() {
                assert(ret@[k] == old_ret[k]);
            }
        }
        assert forall|k: int|
            0 <= k < ret.len() implies (#[trigger] ret@[k])@.len() > 0 && ret@[k]@.no_duplicates()
                && already@.contains(ret@[k]@[0]) by {
            if k < old_ret.len() {
                assert(ret@[k] == old_ret[k]);
                assert(old_already.contains(old_ret[k]@[0]));
            }
        }
        assert forall|j: int, k: int|
            0 <= j < k < ret.len() implies !connected(ls, (#[trigger] ret@[j])@[0], (#[trigger] ret@[k])@[0]) by {
            assert(ret@[j] == old_ret[j]);
            if k < old_ret.len() {
                assert(ret@[k] == old_ret[k]);
            } else {
                assert(old_already.contains(old_ret[j]@[0]));
                if connected(ls, ret@[j]@[0], ret@[k]@[0]) {
                    lemma_closed_reach(ls, old_already, old_ret[j]@[0], s0);
                }
            }
        }
        assert forall|x: Pt3|
            ss@.contains(x) && already@.contains(x) implies exists|k: int|
                0 <= k < ret.len() && #[trigger] ret@[k]@.contains(x) by {
            if old_already.contains(x) {
                let k = choose|k: int| 0 <= k < old_ret.len() && #[trigger] old_ret[k]@.contains(x);
                assert(ret@[k] == old_ret[k]);
            } else {
                assert(comp@.contains(x));
                assert(ret@[old_ret.len() as int]@.contains(x));
            }
        }
        assert forall|j: int| 0 <= j < si + 1 implies already@.contains(#[trigger] ss@[j]) by {
            if j < si {
                assert(old_already.contains(ss@[j]));
            }
        }
        si = si + 1;
    }
    let ghost rv = ret@.map_values(|v: Vec<Pt3>| v@);
    assert forall|k: int| 0 <= k < rv.len() implies #[trigger] rv[k] == ret@[k]@ by {}
    assert forall|k: int| 0 <= k < rv.len() implies (#[trigger] rv[k]).len() > 0 && rv[k].no_duplicates() by {
        assert(rv[k] == ret@[k]@);
        assert(ret@[k]@.len() > 0);
    }
    assert forall|k: int, x: Pt3| 0 <= k < rv.len() implies (#[trigger] rv[k].contains(x) <==> ss@.contains(x)
        && connected(ls, rv[k][0], x)) by {
        assert(rv[k] == ret@[k]@);
        assert(ret@[k]@.contains(x) <==> ss@.contains(x) && connected(ls, ret@[k]@[0], x));
    }
    assert forall|x: Pt3| ss@.contains(x) implies exists|k: int| 0 <= k < rv.len() && #[trigger] rv[k].contains(x) by {
        let j = choose|j: int| 0 <= j < ss@.len() && ss@[j] == x;
        assert(already@.contains(ss@[j]));
        let k = choose|k: int| 0 <= k < ret.len() && #[trigger] ret@[k]@.contains(x);
        assert(rv[k] == ret@[k]@);
    }
    assert forall|j: int, k: int| 0 <= j < k < rv.len() implies !connected(ls, (#[trigger] rv[j])[0], (#[trigger] rv[k])[0]) by {
        assert(rv[j] == ret@[j]@ && rv[k] == ret@[k]@);
        assert(!connected(ls, ret@[j]@[0], ret@[k]@[0]));
    }
    assert(components_of(ss@, ls, rv));
    ret
}

// ---------------------------------------------------------------------------------------------
// Moving cells and points
// ---------------------------------------------------------------------------------------------

pub open spec fn shifted(s: Seq<(int, int)>, dx: int, dy: int) -> Seq<(int, int)> {
    s.map_values(|p: (int, int)| (p.0 + dx, p.1 + dy))
}

/// `m` is the lowest column of the cells `s`.
pub open spec fn is_min_x(s: Seq<(int, int)>, m: int) -> bool {
    (forall|i: int| 0 <= i < s.len() ==> m <= (#[trigger] s[i]).0) && exists|i: int|
        0 <= i < s.len() && (#[trigger] s[i]).0 == m
}

/// `m` is the lowest row of the cells `s`.
pub open spec fn is_min_y(s: Seq<(int, int)>, m: int) -> bool {
    (forall|i: int| 0 <= i < s.len() ==> m <= (#[trigger] s[i]).1) && exists|i: int|
        0 <= i < s.len() && (#[trigger] s[i]).1 == m
}

/// Cells no two of which are further apart than an `isize` can say.
pub open spec fn spread_ok(v: Seq<(isize, isize)>) -> bool {
    forall|i: int, j: int|
        0 <= i < v.len() && 0 <= j < v.len() ==> (#[trigger] v[i]).0 - (#[trigger] v[j]).0
            <= isize::MAX && v[i].1 - v[j].1 <= isize::MAX
}

/// The cells moved so that their lowest column and lowest row are 0, with the lowest column and
/// lowest row they had.
pub fn realign(cells: &Vec<(isize, isize)>) -> (r: (Vec<(isize, isize)>, isize, isize))
    requires
        cells.len() > 0,
        spread_ok(cells@),
    ensures
        is_min_x(cells_int(cells@), r.1 as int),
        is_min_y(cells_int(cells@), r.2 as int),
        cells_int(r.0@) == shifted(cells_int(cells@), -r.1, -r.2),
{
    let ghost s = cells_int(cells@);
    let mut min_x = cells[0].0;
    let mut min_y = cells[0].1;
    let mut wx: usize = 0;
    let mut wy: usize = 0;
    let mut i: usize = 1;
    while i < cells.len()
        invariant
            1 <= i <= cells.len(),
            s == cells_int(cells@),
            wx < i && wy < i,
            cells@[wx as int].0 == min_x,
            cells@[wy as int].1 == min_y,
            forall|j: int| 0 <= j < i ==> min_x <= (#[trigger] cells@[j]).0 && min_y <= cells@[j].1,
        decreases cells.len() - i,
    {
        if cells[i].0 < min_x {
            min_x = cells[i].0;
            wx = i;
        }
        if cells[i].1 < min_y {
            min_y = cells[i].1;
            wy = i;
        }
        i = i + 1;
    }
    assert(s[wx as int].0 == min_x && s[wy as int].1 == min_y);
    let mut out: Vec<(isize, isize)> = Vec::new();
    let mut k: usize = 0;
    while k < cells.len()
        invariant
            k <= cells.len(),
            s == cells_int(cells@),
            spread_ok(cells@),
            wx < cells.len() && wy < cells.len(),
            cells@[wx as int].0 == min_x,
            cells@[wy as int].1 == min_y,
            forall|j: int| 0 <= j < cells.len() ==> min_x <= (#[trigger] cells@[j]).0 && min_y <= cells@[j].1,
            cells_int(out@) == shifted(s.take(k as int), -min_x, -min_y),
        decreases cells.len() - k,
    {
        let c = cells[k];
        assert(cells@[k as int].0 - cells@[wx as int].0 <= isize::MAX);
        assert(cells@[k as int].1 - cells@[wy as int].1 <= isize::MAX);
        let ghost prev = cells_int(out@);
        out.push((c.0 - min_x, c.1 - min_y));
        assert(cells_int(out@) =~= prev.push(((c.0 - min_x) as int, (c.1 - min_y) as int)));
        assert(shifted(s.take(k + 1), -min_x, -min_y) =~= shifted(s.take(k as int), -min_x, -min_y).push(
            (s[k as int].0 - min_x, s[k as int].1 - min_y),
        ));
        k = k + 1;
    }
    assert(s.take(k as int) =~= s);
    (out, min_x, min_y)
}

/// The point `p` of a history that repeats every `mt` generations, moved by `(ox, oy)` each time,
/// brought back into the generations `0..mt`.
pub open spec fn wrapped(p: (int, int, int), ox: int, oy: int, mt: int) -> (int, int, int) {
    (p.0 - (p.2 / mt) * ox, p.1 - (p.2 / mt) * oy, p.2 % mt)
}

/// The point `p` of a history that repeats every `mt` generations, moved by `(ox, oy)` each time,
/// brought back into the generations `0..mt`.
pub fn wrap(p: Pt3, ox: isize, oy: isize, mt: usize) -> (r: Pt3)
    requires
        mt > 0,
        p.2 <= 0x100,
        modest(p.0 as int),
        modest(p.1 as int),
        -0x10_0000 <= ox <= 0x10_0000,
        -0x10_0000 <= oy <= 0x10_0000,
    ensures
        pt_int(r) == wrapped(pt_int(p), ox as int, oy as int, mt as int),
{
    let (mut x, mut y, mut t) = p;
    let ghost mut k: int = 0;
    while t >= mt
        invariant
            mt > 0,
            0 <= k <= 0x100,
            t <= p.2,
            p.2 == k * mt + t,
            x == p.0 - k * ox,
            y == p.1 - k * oy,
            p.2 <= 0x100,
            modest(p.0 as int),
            modest(p.1 as int),
            -0x10_0000 <= ox <= 0x10_0000,
            -0x10_0000 <= oy <= 0x10_0000,
        decreases t,
    {
        assert(k + 1 <= 0x100) by (nonlinear_arith)
            requires
                p.2 == k * mt + t,
                t >= mt,
                mt > 0,
                p.2 <= 0x100,
                k >= 0,
        ;
        assert(-0x1000_0000 <= (k + 1) * ox <= 0x1000_0000 && -0x1000_0000 <= (k + 1) * oy <= 0x1000_0000)
            by (nonlinear_arith)
            requires
                0 <= k + 1 <= 0x100,
                -0x10_0000 <= ox <= 0x10_0000,
                -0x10_0000 <= oy <= 0x10_0000,
        ;
        assert((k + 1) * ox == k * ox + ox && (k + 1) * oy == k * oy + oy && (k + 1) * mt == k * mt + mt)
            by (nonlinear_arith);
        x = x - ox;
        y = y - oy;
        t = t - mt;
        proof {
            k = k + 1;
        }
    }
    proof {
        vstd::arithmetic::div_mod::lemma_fundamental_div_mod_converse(p.2 as int, mt as int, k, t as int);
    }
    (x, y, t)
}

// ---------------------------------------------------------------------------------------------
// Running a pattern until it repeats
// ---------------------------------------------------------------------------------------------

/// A coordinate or move small enough for the arithmetic of slicing.
pub open spec fn small(v: int) -> bool {
    -0x2_0000 <= v <= 0x2_0000
}

pub open spec fn gen_follows(h: Seq<Seq<(int, int)>>, t: int) -> bool {
    h[t + 1].no_duplicates() && forall|p: (int, int)| h[t + 1].contains(p) <==> life_next(h[t], p)
}

/// `h` is a history of Life: each generation, every live cell held once, follows from the one
/// before it.
pub open spec fn life_history(h: Seq<Seq<(int, int)>>) -> bool {
    h.len() >= 1 && h[0].no_duplicates() && forall|t: int|
        0 <= t < h.len() - 1 ==> #[trigger] gen_follows(h, t)
}

pub open spec fn same_set(a: Seq<(int, int)>, b: Seq<(int, int)>) -> bool {
    forall|p: (int, int)| a.contains(p) <==> b.contains(p)
}

/// Generation `t` of `h` is generation 0 again, moved by `(ox, oy)`, its lowest column and row.
pub open spec fn recurs(h: Seq<Seq<(int, int)>>, t: int, ox: int, oy: int) -> bool {
    &&& h[t].len() > 0
    &&& is_min_x(h[t], ox)
    &&& is_min_y(h[t], oy)
    &&& same_set(shifted(h[t], -ox, -oy), h[0])
}

pub open spec fn recurs_at(h: Seq<Seq<(int, int)>>, t: int) -> bool {
    exists|ox: int, oy: int| recurs(h, t, ox, oy)
}

/// Generation `t` of `h` is not empty and does not repeat generation 0.
pub open spec fn quiet_gen(h: Seq<Seq<(int, int)>>, t: int) -> bool {
    h[t].len() > 0 && !recurs_at(h, t)
}

/// No generation `1..n` of `h` is empty or repeats generation 0.
pub open spec fn quiet_until(h: Seq<Seq<(int, int)>>, n: int) -> bool {
    forall|t: int| 1 <= t < n ==> #[trigger] quiet_gen(h, t)
}

/// The point `p` of a step taken at generation `t`, in a history that repeats after `mt`
/// generations moved by `(ox, oy)`.
pub open spec fn hist_pt(t: int, mt: int, ox: int, oy: int, p: (int, int, int)) -> (int, int, int) {
    if t + p.2 >= mt {
        (p.0 - ox, p.1 - oy, t + p.2 - mt)
    } else {
        (p.0, p.1, t + p.2)
    }
}

/// The links that the steps of the first `mt` generations of `h` make, placed in the history.
pub open spec fn hist_link(
    h: Seq<Seq<(int, int)>>,
    mt: int,
    ox: int,
    oy: int,
    a: (int, int, int),
    b: (int, int, int),
) -> bool {
    exists|t: int, a0: (int, int, int), b0: (int, int, int)|
        0 <= t < mt && #[trigger] step_link(h[t], a0, b0) && a == hist_pt(t, mt, ox, oy, a0) && b
            == hist_pt(t, mt, ox, oy, b0)
}

/// `h` runs from the cells `c0` until they first repeat, after `mt` generations moved by
/// `(ox, oy)`; `cells` holds each live cell of generations `0..mt` as `(x, y, t)`, and `links` the
/// links of their steps.
pub open spec fn cycle_of(
    c0: Seq<(int, int)>,
    h: Seq<Seq<(int, int)>>,
    mt: int,
    ox: int,
    oy: int,
    cells: Seq<Pt3>,
    links: Seq<(Pt3, Pt3)>,
) -> bool {
    &&& life_history(h)
    &&& h[0] == c0
    &&& 1 <= mt <= 100
    &&& h.len() == mt + 1
    &&& quiet_until(h, mt)
    &&& recurs(h, mt, ox, oy)
    &&& cells.no_duplicates()
    &&& small(ox) && small(oy)
    &&& forall|p: Pt3| #[trigger] cells.contains(p) ==> small(p.0 as int) && small(p.1 as int)
    &&& forall|p: Pt3| #[trigger] cells.contains(p) <==> p.2 < mt && h[p.2 as int].contains((p.0 as int, p.1 as int))
    &&& forall|i: int| 0 <= i < links.len() ==> hist_link(h, mt, ox, oy, pt_int((#[trigger] links[i]).0), pt_int(links[i].1))
    &&& forall|a: (int, int, int), b: (int, int, int)| hist_link(h, mt, ox, oy, a, b) ==> #[trigger] links_int(links).contains((a, b))
}

/// `cycle_of` for the parts of `v`: cells, links, `ox`, `oy`, `mt`.
pub open spec fn cycle_found(
    c0: Seq<(int, int)>,
    h: Seq<Seq<(int, int)>>,
    v: (Vec<Pt3>, Vec<(Pt3, Pt3)>, isize, isize, usize),
) -> bool {
    let (cells, links, ox, oy, mt) = v;
    cycle_of(c0, h, mt as int, ox as int, oy as int, cells@, links@)
}

/// What running Life from the cells `c0` gives: the cells, links, `ox`, `oy` and `mt` of its first
/// repeat (see `cycle_of`), or nothing where it dies out or does not repeat within a hundred
/// generations (see `no_cycle`).
pub open spec fn evolved(c0: Seq<(int, int)>, r: Option<(Vec<Pt3>, Vec<(Pt3, Pt3)>, isize, isize, usize)>) -> bool {
    match r {
        Some(v) => exists|h: Seq<Seq<(int, int)>>| #[trigger] cycle_found(c0, h, v),
        None => exists|h: Seq<Seq<(int, int)>>| #[trigger] no_cycle(c0, h),
    }
}

/// `h` runs from the cells `c0` for as long as the run goes without repeating: it dies out, or
/// a hundred generations pass.
pub open spec fn no_cycle(c0: Seq<(int, int)>, h: Seq<Seq<(int, int)>>) -> bool {
    &&& life_history(h)
    &&& h[0] == c0
    &&& 2 <= h.len() <= 101
    &&& quiet_until(h, h.len() - 1)
    &&& (h.last().len() == 0 || (h.len() == 101 && !recurs_at(h, 100)))
}

fn same_cells(a: &Vec<(isize, isize)>, b: &Vec<(isize, isize)>) -> (r: bool)
    ensures
        r == same_set(cells_int(a@), cells_int(b@)),
{
    let mut i: usize = 0;
    while i < a.len()
        invariant
            i <= a.len(),
            forall|j: int| 0 <= j < i ==> cells_int(b@).contains(#[trigger] cells_int(a@)[j]),
        decreases a.len() - i,
    {
        if !contains2(b, a[i]) {
            assert(cells_int(a@).contains(cells_int(a@)[i as int]));
            return false;
        }
        i = i + 1;
    }
    let mut j: usize = 0;
    while j < b.len()
        invariant
            j <= b.len(),
            forall|k: int| 0 <= k < a.len() ==> cells_int(b@).contains(#[trigger] cells_int(a@)[k]),
            forall|k: int| 0 <= k < j ==> cells_int(a@).contains(#[trigger] cells_int(b@)[k]),
        decreases b.len() - j,
    {
        if !contains2(a, b[j]) {
            assert(cells_int(b@).contains(cells_int(b@)[j as int]));
            return false;
        }
        j = j + 1;
    }
    assert forall|p: (int, int)| cells_int(a@).contains(p) <==> cells_int(b@).contains(p) by {
        if cells_int(a@).contains(p) {
            let k = choose|k: int| 0 <= k < a.len() && cells_int(a@)[k] == p;
        }
        if cells_int(b@).contains(p) {
            let k = choose|k: int| 0 <= k < b.len() && cells_int(b@)[k] == p;
        }
    }
    true
}

pub open spec fn tshift(t: int, p: (int, int, int)) -> (int, int, int) {
    (p.0, p.1, t + p.2)
}

/// The links that the steps of the first `n` generations of `h` make, placed in the history
/// without wrapping.
pub open spec fn early_link(h: Seq<Seq<(int, int)>>, n: int, a: (int, int, int), b: (int, int, int)) -> bool {
    exists|t: int, a0: (int, int, int), b0: (int, int, int)|
        0 <= t < n && #[trigger] step_link(h[t], a0, b0) && a == tshift(t, a0) && b == tshift(t, b0)
}

/// Cells within `d` of the box `0..=0x1_0000` in both directions.
pub open spec fn near_box(v: Seq<(isize, isize)>, d: int) -> bool {
    forall|i: int|
        0 <= i < v.len() ==> -d <= (#[trigger] v[i]).0 <= 0x1_0000 + d && -d <= v[i].1 <= 0x1_0000 + d
}

proof fn lemma_min_unique(s: Seq<(int, int)>, a: int, b: int)
    ensures
        is_min_x(s, a) && is_min_x(s, b) ==> a == b,
        is_min_y(s, a) && is_min_y(s, b) ==> a == b,
{
    if is_min_x(s, a) && is_min_x(s, b) {
        let i = choose|i: int| 0 <= i < s.len() && (#[trigger] s[i]).0 == a;
        let j = choose|j: int| 0 <= j < s.len() && (#[trigger] s[j]).0 == b;
    }
    if is_min_y(s, a) && is_min_y(s, b) {
        let i = choose|i: int| 0 <= i < s.len() && (#[trigger] s[i]).1 == a;
        let j = choose|j: int| 0 <= j < s.len() && (#[trigger] s[j]).1 == b;
    }
}

proof fn lemma_wrap_once(v: int, mt: int, ox: int, oy: int)
    requires
        0 <= v <= mt,
        mt > 0,
    ensures
        (v / mt) * ox == (if v >= mt { ox } else { 0 }),
        (v / mt) * oy == (if v >= mt { oy } else { 0 }),
        v % mt == (if v >= mt { 0 } else { v }),
{
    if v >= mt {
        vstd::arithmetic::div_mod::lemma_fundamental_div_mod_converse(v, mt, 1, 0);
    } else {
        vstd::arithmetic::div_mod::lemma_fundamental_div_mod_converse(v, mt, 0, v);
    }
}

/// Appends the cells of generation `t` to `all`, as points `(x, y, t)`.
fn record_gen(all: &mut Vec<Pt3>, cells: &Vec<(isize, isize)>, t: usize)
    requires
        old(all)@.no_duplicates(),
        forall|p: Pt3| old(all)@.contains(p) ==> p.2 < t,
        cells_int(cells@).no_duplicates(),
    ensures
        final(all)@.no_duplicates(),
        forall|p: Pt3|
            #[trigger] final(all)@.contains(p) <==> old(all)@.contains(p) || (p.2 == t
                && cells_int(cells@).contains((p.0 as int, p.1 as int))),
{
    let ghost a0 = all@;
    let mut i: usize = 0;
    while i < cells.len()
        invariant
            i <= cells.len(),
            forall|p: Pt3| a0.contains(p) ==> p.2 < t,
            cells_int(cells@).no_duplicates(),
            all@.no_duplicates(),
            forall|p: Pt3|
                #[trigger] all@.contains(p) <==> a0.contains(p) || (p.2 == t && exists|j: int|
                    0 <= j < i && cells_int(cells@)[j] == (p.0 as int, p.1 as int)),
        decreases cells.len() - i,
    {
        let c = cells[i];
        let np = (c.0, c.1, t);
        assert(cells_int(cells@)[i as int] == (c.0 as int, c.1 as int));
        assert(!all@.contains(np)) by {
            if all@.contains(np) {
                let j = choose|j: int| 0 <= j < i && cells_int(cells@)[j] == (c.0 as int, c.1 as int);
                assert(cells_int(cells@)[j] == cells_int(cells@)[i as int]);
            }
        }
        let ghost prev = all@;
        all.push(np);
        assert(all@ =~= prev.push(np));
        assert forall|p: Pt3|
            #[trigger] all@.contains(p) <==> a0.contains(p) || (p.2 == t && exists|j: int|
                0 <= j < i + 1 && cells_int(cells@)[j] == (p.0 as int, p.1 as int)) by {
            if p == np {
                assert(all@[prev.len() as int] == p);
            }
            if prev.contains(p) {
                let j = choose|j: int| 0 <= j < prev.len() && prev[j] == p;
                assert(all@[j] == p);
            }
            if all@.contains(p) && p != np {
                let j = choose|j: int| 0 <= j < all@.len() && all@[j] == p;
                assert(prev[j] == p);
            }
        }
        i = i + 1;
    }
    assert forall|p: Pt3|
        #[trigger] all@.contains(p) <==> a0.contains(p) || (p.2 == t && cells_int(cells@).contains(
            (p.0 as int, p.1 as int),
        )) by {
        if p.2 == t && cells_int(cells@).contains((p.0 as int, p.1 as int)) {
            let j = choose|j: int| 0 <= j < cells@.len() && cells_int(cells@)[j] == (p.0 as int, p.1 as int);
        }
    }
}

/// A link of a step taken at generation `t` placed in the history: moved to generation `t` on,
/// or, with `wrap_at = Some((ox, oy))`, with the points of generation `t + 1` brought back to
/// generation 0 moved by `(-ox, -oy)`.
pub open spec fn placed(
    t: int,
    wrap_at: Option<(isize, isize)>,
    l: ((int, int, int), (int, int, int)),
) -> ((int, int, int), (int, int, int)) {
    match wrap_at {
        None => (tshift(t, l.0), tshift(t, l.1)),
        Some((ox, oy)) => (hist_pt(t, t + 1, ox as int, oy as int, l.0), hist_pt(t, t + 1, ox as int, oy as int, l.1)),
    }
}

/// Appends the links of a step taken at generation `t`, each point moved to generation `t` on,
/// or, with `wrap_at = Some((ox, oy))`, the points of generation `t + 1` brought back to
/// generation 0 moved by `(-ox, -oy)`.
fn record_links(all: &mut Vec<(Pt3, Pt3)>, links: &Vec<(Pt3, Pt3)>, t: usize, wrap_at: Option<(isize, isize)>)
    requires
        t < 100,
        forall|i: int|
            0 <= i < links.len() ==> (#[trigger] links@[i]).0.2 <= 1 && links@[i].1.2 <= 1
                && modest(links@[i].0.0 as int) && modest(links@[i].0.1 as int) && modest(
                links@[i].1.0 as int,
            ) && modest(links@[i].1.1 as int),
        wrap_at matches Some((ox, oy)) ==> -0x10_0000 <= ox <= 0x10_0000 && -0x10_0000 <= oy <= 0x10_0000,
    ensures
        links_int(final(all)@) == links_int(old(all)@) + links_int(links@).map_values(
            |l: ((int, int, int), (int, int, int))| placed(t as int, wrap_at, l),
        ),
{
    let ghost a0 = links_int(all@);
    let mut i: usize = 0;
    while i < links.len()
        invariant
            i <= links.len(),
            t < 100,
            forall|i: int|
                0 <= i < links.len() ==> (#[trigger] links@[i]).0.2 <= 1 && links@[i].1.2 <= 1
                    && modest(links@[i].0.0 as int) && modest(links@[i].0.1 as int) && modest(
                    links@[i].1.0 as int,
                ) && modest(links@[i].1.1 as int),
            wrap_at matches Some((ox, oy)) ==> -0x10_0000 <= ox <= 0x10_0000 && -0x10_0000 <= oy
                <= 0x10_0000,
            links_int(all@) == a0 + links_int(links@).take(i as int).map_values(|l: ((int, int, int), (int, int, int))| placed(t as int, wrap_at, l)),
        decreases links.len() - i,
    {
        let (a, b) = links[i];
        let (a2, b2) = match wrap_at {
            None => ((a.0, a.1, t + a.2), (b.0, b.1, t + b.2)),
            Some((ox, oy)) => {
                let mt = t + 1;
                let a2 = wrap((a.0, a.1, t + a.2), ox, oy, mt);
                let b2 = wrap((b.0, b.1, t + b.2), ox, oy, mt);
                proof {
                    lemma_wrap_once((t + a.2) as int, mt as int, ox as int, oy as int);
                    assert(pt_int(a2) == hist_pt(t as int, mt as int, ox as int, oy as int, pt_int(a)));
                    lemma_wrap_once((t + b.2) as int, mt as int, ox as int, oy as int);
                    assert(pt_int(b2) == hist_pt(t as int, mt as int, ox as int, oy as int, pt_int(b)));
                }
                (a2, b2)
            },
        };
        assert(links_int(links@)[i as int] == (pt_int(a), pt_int(b)));
        proof {
            match wrap_at {
                None => {
                    assert(pt_int(a2) == tshift(t as int, pt_int(a)));
                    assert(pt_int(b2) == tshift(t as int, pt_int(b)));
                },
                Some((ox, oy)) => {
                    assert(pt_int(a2) == hist_pt(t as int, t + 1, ox as int, oy as int, pt_int(a)));
                },
            }
        }
        assert((pt_int(a2), pt_int(b2)) == placed(t as int, wrap_at, links_int(links@)[i as int]));
        let ghost prev = links_int(all@);
        all.push((a2, b2));
        assert(links_int(all@) =~= prev.push((pt_int(a2), pt_int(b2))));
        assert(links_int(links@).take(i + 1).map_values(|l: ((int, int, int), (int, int, int))| placed(t as int, wrap_at, l)) =~= links_int(links@).take(i as int).map_values(|l: ((int, int, int), (int, int, int))| placed(t as int, wrap_at, l)).push(placed(t as int, wrap_at, links_int(links@)[i as int])));
        assert(a0 + links_int(links@).take(i + 1).map_values(|l: ((int, int, int), (int, int, int))| placed(t as int, wrap_at, l)) =~= (a0 + links_int(links@).take(i as int).map_values(|l: ((int, int, int), (int, int, int))| placed(t as int, wrap_at, l))).push(placed(t as int, wrap_at, links_int(links@)[i as int])));
        i = i + 1;
    }
    assert(links_int(links@).take(i as int) =~= links_int(links@));
}

proof fn lemma_next_near(s: Seq<(int, int)>, p: (int, int))
    requires
        life_next(s, p),
    ensures
        near_cells(s, p),
{
    if s.contains(p) {
        lemma_near_of_contains(s, p);
    } else {
        lemma_near_of_count(s, p);
    }
}

/// Runs Life from the cells `c0` until they repeat, moved, or die out, for at most a hundred
/// generations.  On a repeat after `mt` generations, moved by `(ox, oy)`, gives the live cells of
/// generations `0..mt` as points `(x, y, t)`, the links of their steps, `ox`, `oy` and `mt`.
pub fn evolve(c0: &Vec<(isize, isize)>) -> (r: Option<(Vec<Pt3>, Vec<(Pt3, Pt3)>, isize, isize, usize)>)
    requires
        cells_int(c0@).no_duplicates(),
        near_box(c0@, 0),
    ensures
        evolved(cells_int(c0@), r),
{
    let ghost c0s = cells_int(c0@);
    let mut cells: Vec<(isize, isize)> = Vec::new();
    let mut k: usize = 0;
    while k < c0.len()
        invariant
            k <= c0.len(),
            cells@ == c0@.take(k as int),
        decreases c0.len() - k,
    {
        cells.push(c0[k]);
        assert(c0@.take(k + 1) =~= c0@.take(k as int).push(c0@[k as int]));
        k = k + 1;
    }
    assert(c0@.take(k as int) =~= c0@);
    let ghost mut h: Seq<Seq<(int, int)>> = seq![c0s];
    let mut all_cells: Vec<Pt3> = Vec::new();
    let mut all_links: Vec<(Pt3, Pt3)> = Vec::new();
    let mut t: usize = 0;
    assert(links_int(all_links@) =~= Seq::<((int, int, int), (int, int, int))>::empty());
    while t < 100
        invariant
            t <= 100,
            c0s == cells_int(c0@),
            h.len() == t + 1,
            life_history(h),
            h[0] == c0s,
            h[t as int] == cells_int(cells@),
            quiet_until(h, t + 1),
            near_box(cells@, t as int),
            all_cells@.no_duplicates(),
            forall|p: Pt3| #[trigger] all_cells@.contains(p) ==> small(p.0 as int) && small(p.1 as int),
            forall|p: Pt3|
                #[trigger] all_cells@.contains(p) <==> p.2 < t && h[p.2 as int].contains((p.0 as int, p.1 as int)),
            forall|i: int|
                0 <= i < all_links.len() ==> early_link(
                    h,
                    t as int,
                    (#[trigger] links_int(all_links@)[i]).0,
                    links_int(all_links@)[i].1,
                ),
            forall|a: (int, int, int), b: (int, int, int)|
                early_link(h, t as int, a, b) ==> #[trigger] links_int(all_links@).contains((a, b)),
        decreases 100 - t,
    {
        let ghost s = cells_int(cells@);
        assert(modest_cells(cells@));
        assert(s.no_duplicates()) by {
            if t > 0 {
                assert(gen_follows(h, t - 1));
            }
        }
        let ghost ac0 = all_cells@;
        record_gen(&mut all_cells, &cells, t);
        assert forall|p: Pt3| #[trigger] all_cells@.contains(p) implies small(p.0 as int) && small(p.1 as int) by {
            if !ac0.contains(p) {
                let j = choose|j: int| 0 <= j < cells@.len() && cells_int(cells@)[j] == (p.0 as int, p.1 as int);
                assert(cells_int(cells@)[j] == (cells@[j].0 as int, cells@[j].1 as int));
            }
        }
        let (next, links) = step(&cells);
        let ghost sn = cells_int(next@);
        let ghost h2 = h.push(sn);
        assert(life_history(h2)) by {
            assert forall|t2: int| 0 <= t2 < h2.len() - 1 implies #[trigger] gen_follows(h2, t2) by {
                if t2 < t {
                    assert(gen_follows(h, t2));
                    assert(h2[t2] == h[t2] && h2[t2 + 1] == h[t2 + 1]);
                } else {
                    assert(h2[t2] == s && h2[t2 + 1] == sn);
                }
            }
        }
        assert(quiet_until(h2, t + 1)) by {
            assert forall|t2: int| 1 <= t2 < t + 1 implies #[trigger] quiet_gen(h2, t2) by {
                assert(h2[t2] == h[t2]);
                assert(h2[0] == h[0]);
                assert(quiet_gen(h, t2));
                if recurs_at(h2, t2) {
                    let (ox2, oy2) = choose|ox2: int, oy2: int| recurs(h2, t2, ox2, oy2);
                    assert(recurs(h, t2, ox2, oy2));
                }
            }
        }
        if next.len() == 0 {
            assert(no_cycle(c0s, h2));
            assert(evolved(cells_int(c0@), None));
            return None;
        }
        assert forall|i: int| 0 <= i < next@.len() implies -(t + 1) <= (#[trigger] next@[i]).0 <= 0x1_0000 + t + 1
            && -(t + 1) <= next@[i].1 <= 0x1_0000 + t + 1 by {
            assert(sn[i] == (next@[i].0 as int, next@[i].1 as int));
            assert(sn.contains(sn[i]));
            lemma_next_near(s, sn[i]);
            let j = choose|j: int| 0 <= j < s.len() && adjacent(#[trigger] s[j], sn[i]);
            assert(s[j] == (cells@[j].0 as int, cells@[j].1 as int));
        }
        let (c3, ox, oy) = realign(&next);
        let ghost w = choose|i: int| 0 <= i < sn.len() && (#[trigger] sn[i]).0 == ox;
        let ghost wy = choose|i: int| 0 <= i < sn.len() && (#[trigger] sn[i]).1 == oy;
        assert(sn[w] == (next@[w].0 as int, next@[w].1 as int));
        assert(sn[wy] == (next@[wy].0 as int, next@[wy].1 as int));
        assert forall|i: int| 0 <= i < links.len() implies (#[trigger] links@[i]).0.2 <= 1 && links@[i].1.2 <= 1
            && modest(links@[i].0.0 as int) && modest(links@[i].0.1 as int) && modest(links@[i].1.0 as int)
            && modest(links@[i].1.1 as int) by {
            let li = links_int(links@)[i];
            assert(li == (pt_int(links@[i].0), pt_int(links@[i].1)));
            assert(step_link(s, li.0, li.1));
            if li.1.2 == 0 {
                let j = choose|j: int| 0 <= j < s.len() && s[j] == xy(li.1);
                assert(s[j] == (cells@[j].0 as int, cells@[j].1 as int));
            } else {
                lemma_next_near(s, xy(li.0));
                let j = choose|j: int| 0 <= j < s.len() && adjacent(#[trigger] s[j], xy(li.0));
                assert(s[j] == (cells@[j].0 as int, cells@[j].1 as int));
            }
        }
        if same_cells(&c3, c0) {
            let ghost lold = links_int(all_links@);
            record_links(&mut all_links, &links, t, Some((ox, oy)));
            assert(links_int(all_links@).len() == lold.len() + links_int(links@).len());
            let mt = t + 1;
            assert(recurs(h2, mt as int, ox as int, oy as int));
            assert forall|p: Pt3|
                #[trigger] all_cells@.contains(p) <==> p.2 < mt && h2[p.2 as int].contains((p.0 as int, p.1 as int)) by {
                if p.2 < mt {
                    assert(h2[p.2 as int] == h[p.2 as int]);
                }
            }
            assert forall|i: int| 0 <= i < all_links.len() implies hist_link(h2, mt as int, ox as int, oy as int,
                pt_int((#[trigger] all_links@[i]).0), pt_int(all_links@[i].1)) by {
                let li = links_int(all_links@)[i];
                assert(li == (pt_int(all_links@[i].0), pt_int(all_links@[i].1)));
                if i < lold.len() {
                    assert(li == lold[i]);
                    let (t2, a0, b0) = choose|t2: int, a0: (int, int, int), b0: (int, int, int)|
                        0 <= t2 < t && #[trigger] step_link(h[t2], a0, b0) && li.0 == tshift(t2, a0) && li.1 == tshift(t2, b0);
                    assert(h2[t2] == h[t2]);
                    assert(hist_pt(t2, mt as int, ox as int, oy as int, a0) == tshift(t2, a0));
                    assert(hist_pt(t2, mt as int, ox as int, oy as int, b0) == tshift(t2, b0));
                    assert(step_link(h2[t2], a0, b0));
                } else {
                    let j = i - lold.len();
                    assert(0 <= j < links_int(links@).len());
                    let l0 = links_int(links@)[j];
                    assert(li == placed(t as int, Some((ox, oy)), l0));
                    assert(step_link(s, l0.0, l0.1));
                    assert(h2[t as int] == s);
                    assert(step_link(h2[t as int], l0.0, l0.1));
                    assert(li.0 == hist_pt(t as int, mt as int, ox as int, oy as int, l0.0));
                    assert(li.1 == hist_pt(t as int, mt as int, ox as int, oy as int, l0.1));
                }
            }
            assert forall|a: (int, int, int), b: (int, int, int)|
                hist_link(h2, mt as int, ox as int, oy as int, a, b) implies #[trigger] links_int(all_links@).contains((a, b)) by {
                let (t2, a0, b0) = choose|t2: int, a0: (int, int, int), b0: (int, int, int)|
                    0 <= t2 < mt && #[trigger] step_link(h2[t2], a0, b0) && a == hist_pt(t2, mt as int, ox as int, oy as int, a0)
                        && b == hist_pt(t2, mt as int, ox as int, oy as int, b0);
                if t2 < t {
                    assert(h2[t2] == h[t2]);
                    assert(step_link(h[t2], a0, b0));
                    assert(a == tshift(t2, a0) && b == tshift(t2, b0));
                    assert(early_link(h, t as int, a, b));
                    assert(lold.contains((a, b)));
                    let j = choose|j: int| 0 <= j < lold.len() && lold[j] == (a, b);
                    assert(links_int(all_links@)[j] == (a, b));
                } else {
                    assert(h2[t2] == s);
                    assert(links_int(links@).contains((a0, b0)));
                    let j = choose|j: int| 0 <= j < links_int(links@).len() && links_int(links@)[j] == (a0, b0);
                    assert(links_int(all_links@)[lold.len() + j] == placed(t as int, Some((ox, oy)), (a0, b0)));
                }
            }
            assert(cycle_of(c0s, h2, mt as int, ox as int, oy as int, all_cells@, all_links@));
            let res = (all_cells, all_links, ox, oy, mt);
            assert(cycle_found(cells_int(c0@), h2, res));
            let ghost sr = Some(res);
            assert(sr->0 == res);
            assert(cycle_found(cells_int(c0@), h2, sr->0));
            assert(evolved(cells_int(c0@), sr));
            return Some(res);
        }
        assert(!recurs_at(h2, t + 1)) by {
            let t1: int = t + 1;
            if recurs_at(h2, t1) {
                let (ox2, oy2) = choose|ox2: int, oy2: int| recurs(h2, t1, ox2, oy2);
                lemma_min_unique(sn, ox2, ox as int);
                lemma_min_unique(sn, oy2, oy as int);
            }
        }
        let ghost lold = links_int(all_links@);
        record_links(&mut all_links, &links, t, None);
        assert(links_int(all_links@).len() == lold.len() + links_int(links@).len());
        assert forall|p: Pt3|
            #[trigger] all_cells@.contains(p) <==> p.2 < t + 1 && h2[p.2 as int].contains((p.0 as int, p.1 as int)) by {
            if p.2 < t + 1 {
                assert(h2[p.2 as int] == h[p.2 as int]);
            }
        }
        assert forall|i: int| 0 <= i < all_links.len() implies early_link(h2, t + 1,
            (#[trigger] links_int(all_links@)[i]).0, links_int(all_links@)[i].1) by {
            let li = links_int(all_links@)[i];
            if i < lold.len() {
                assert(li == lold[i]);
                let (t2, a0, b0) = choose|t2: int, a0: (int, int, int), b0: (int, int, int)|
                    0 <= t2 < t && #[trigger] step_link(h[t2], a0, b0) && li.0 == tshift(t2, a0) && li.1 == tshift(t2, b0);
                assert(h2[t2] == h[t2]);
                assert(step_link(h2[t2], a0, b0));
            } else {
                let j = i - lold.len();
                assert(0 <= j < links_int(links@).len());
                let l0 = links_int(links@)[j];
                assert(li == placed(t as int, None, l0));
                assert(step_link(s, l0.0, l0.1));
                assert(h2[t as int] == s);
                assert(step_link(h2[t as int], l0.0, l0.1));
            }
        }
        assert forall|a: (int, int, int), b: (int, int, int)|
            early_link(h2, t + 1, a, b) implies #[trigger] links_int(all_links@).contains((a, b)) by {
            let (t2, a0, b0) = choose|t2: int, a0: (int, int, int), b0: (int, int, int)|
                0 <= t2 < t + 1 && #[trigger] step_link(h2[t2], a0, b0) && a == tshift(t2, a0) && b == tshift(t2, b0);
            if t2 < t {
                assert(h2[t2] == h[t2]);
                assert(step_link(h[t2], a0, b0));
                assert(early_link(h, t as int, a, b));
                assert(lold.contains((a, b)));
                let j = choose|j: int| 0 <= j < lold.len() && lold[j] == (a, b);
                assert(links_int(all_links@)[j] == (a, b));
            } else {
                assert(h2[t2] == s);
                assert(links_int(links@).contains((a0, b0)));
                let j = choose|j: int| 0 <= j < links_int(links@).len() && links_int(links@)[j] == (a0, b0);
                assert(links_int(all_links@)[lold.len() + j] == placed(t as int, None, (a0, b0)));
            }
        }
        assert(quiet_until(h2, t + 2)) by {
            assert forall|t2: int| 1 <= t2 < t + 2 implies #[trigger] quiet_gen(h2, t2) by {
                if t2 < t + 1 {
                    assert(quiet_until(h2, t + 1));
                }
            }
        }
        cells = next;
        proof {
            h = h2;
        }
        t = t + 1;
    }
    assert(quiet_gen(h, 100));
    assert(no_cycle(c0s, h));
    assert(evolved(cells_int(c0@), None));
    None
}

// ---------------------------------------------------------------------------------------------
// A library of patterns
// ---------------------------------------------------------------------------------------------

/// A piece of a moving pattern: its live cells at the generations `0..mt` as points
/// `(x, y, t)`, and the move `(ox, oy)` it makes every `mt` generations.
pub struct GolPattern {
    pub cells: Vec<Pt3>,
    pub ox: isize,
    pub oy: isize,
    pub mt: usize,
}

/// The patterns loaded so far.
pub struct GolPatterns {
    pub vec: Vec<GolPattern>,
}

pub open spec fn min_x_of(s: Seq<(int, int)>) -> int {
    choose|m: int| is_min_x(s, m)
}

pub open spec fn min_y_of(s: Seq<(int, int)>) -> int {
    choose|m: int| is_min_y(s, m)
}

/// The cells moved so that their lowest column and lowest row are 0.
pub open spec fn realigned(s: Seq<(int, int)>) -> Seq<(int, int)> {
    shifted(s, -min_x_of(s), -min_y_of(s))
}

/// Cells within the box `0..=0x1_0000` in both directions, the largest pattern that is run.
pub open spec fn in_box(s: Seq<(int, int)>) -> bool {
    forall|i: int| 0 <= i < s.len() ==> 0 <= (#[trigger] s[i]).0 <= 0x1_0000 && 0 <= s[i].1 <= 0x1_0000
}

/// `new` is `old` followed by one pattern per connected component of the history `cells` under
/// `links`, each moving by `(ox, oy)` every `mt` generations.
pub open spec fn patterns_added(
    old: Seq<GolPattern>,
    new: Seq<GolPattern>,
    cells: Seq<Pt3>,
    links: Seq<(Pt3, Pt3)>,
    ox: int,
    oy: int,
    mt: int,
) -> bool {
    &&& new.len() >= old.len()
    &&& new.take(old.len() as int) == old
    &&& components_of(cells, links, new.skip(old.len() as int).map_values(|p: GolPattern| p.cells@))
    &&& forall|k: int| old.len() <= k < new.len() ==> (#[trigger] new[k]).ox == ox && new[k].oy == oy && new[k].mt == mt
}

/// What loading the pattern file `ls` onto the patterns `old` gives when it succeeds: the file's
/// cells, moved to the origin, are run until they repeat, and the pieces of that history are
/// added.
pub open spec fn loaded(ls: Seq<Seq<char>>, old: Seq<GolPattern>, new: Seq<GolPattern>) -> bool {
    match rle_cells(ls) {
        Some(p) => {
            let c0 = realigned(p);
            &&& p.len() > 0
            &&& in_box(c0)
            &&& exists|h: Seq<Seq<(int, int)>>, mt: int, ox: int, oy: int, cells: Seq<Pt3>, links: Seq<(Pt3, Pt3)>|
                #[trigger] cycle_of(c0, h, mt, ox, oy, cells, links) && patterns_added(old, new, cells, links, ox, oy, mt)
        },
        None => false,
    }
}

/// Why loading the pattern file `ls` fails: it is not a pattern file, it has no live cell, it is
/// wider or taller than `0x1_0000`, or run it does not repeat (see `no_cycle`).
pub open spec fn refused(ls: Seq<Seq<char>>) -> bool {
    match rle_cells(ls) {
        Some(p) => p.len() == 0 || !in_box(realigned(p)) || exists|h: Seq<Seq<(int, int)>>| #[trigger] no_cycle(realigned(p), h),
        None => true,
    }
}

fn copy_pts(v: &Vec<Pt3>) -> (r: Vec<Pt3>)
    ensures
        r@ == v@,
{
    let mut r: Vec<Pt3> = Vec::new();
    let mut i: usize = 0;
    while i < v.len()
        invariant
            i <= v.len(),
            r@ == v@.take(i as int),
        decreases v.len() - i,
    {
        r.push(v[i]);
        assert(v@.take(i + 1) =~= v@.take(i as int).push(v@[i as int]));
        i = i + 1;
    }
    assert(v@.take(i as int) =~= v@);
    r
}

/// A pattern as `load` makes them: at most a hundred generations, small moves and cells, each
/// cell in one of its generations.
pub open spec fn pattern_ok(p: GolPattern) -> bool {
    &&& 1 <= p.mt <= 100
    &&& small(p.ox as int)
    &&& small(p.oy as int)
    &&& p.cells@.len() > 0
    &&& forall|c: Pt3| #[trigger] p.cells@.contains(c) ==> small(c.0 as int) && small(c.1 as int) && c.2 < p.mt
}

impl GolPatterns {
    pub open spec fn wf(&self) -> bool {
        forall|k: int| 0 <= k < self.vec@.len() ==> pattern_ok(#[trigger] self.vec@[k])
    }

    pub fn new() -> (r: GolPatterns)
        ensures
            r.vec@.len() == 0,
            r.wf(),
    {
        GolPatterns { vec: Vec::new() }
    }

    /// Adds the patterns of one pattern file, given as its lines: its cells are moved to the
    /// origin and run until they repeat, moved, and each connected piece of that history becomes a
    /// pattern.  Returns false, adding nothing, where the file is refused (see `refused`).
    pub fn load(&mut self, lines: &Vec<String>) -> (ok: bool)
        requires
            old(self).wf(),
        ensures
            final(self).wf(),
            ok ==> loaded(lines_view(lines@), old(self).vec@, final(self).vec@),
            !ok ==> final(self).vec@ == old(self).vec@ && refused(lines_view(lines@)),
    {
        let ghost ls = lines_view(lines@);
        let parsed = match parse_rle(lines) {
            None => {
                return false;
            },
            Some(v) => v,
        };
        let ghost p = cells_int(parsed@);
        assert(rle_cells(ls) == Some(p));
        if parsed.len() == 0 {
            return false;
        }
        assert(spread_ok(parsed@)) by {
            assert forall|i: int, j: int| 0 <= i < parsed@.len() && 0 <= j < parsed@.len() implies
                (#[trigger] parsed@[i]).0 - (#[trigger] parsed@[j]).0 <= isize::MAX && parsed@[i].1 - parsed@[j].1 <= isize::MAX by {
                assert(0 <= parsed@[j].0 && 0 <= parsed@[j].1);
            }
        }
        let (c0, mx, my) = realign(&parsed);
        proof {
            lemma_min_unique(p, mx as int, min_x_of(p));
            lemma_min_unique(p, my as int, min_y_of(p));
        }
        assert(cells_int(c0@) == realigned(p));
        let ghost c0s = cells_int(c0@);
        let mut i: usize = 0;
        while i < c0.len()
            invariant
                i <= c0.len(),
                c0s == cells_int(c0@),
                ls == lines_view(lines@),
                rle_cells(ls) == Some(p),
                realigned(p) == c0s,
                self.vec@ == old(self).vec@,
                self.wf(),
                forall|j: int| 0 <= j < i ==> 0 <= (#[trigger] c0s[j]).0 <= 0x1_0000 && 0 <= c0s[j].1 <= 0x1_0000,
                forall|j: int| 0 <= j < c0.len() ==> 0 <= (#[trigger] c0s[j]).0 && 0 <= c0s[j].1,
            decreases c0.len() - i,
        {
            assert(c0s[i as int] == (c0@[i as int].0 as int, c0@[i as int].1 as int));
            if c0[i].0 > 0x1_0000 || c0[i].1 > 0x1_0000 {
                assert(!in_box(c0s));
                return false;
            }
            i = i + 1;
        }
        assert(in_box(c0s));
        assert(near_box(c0@, 0)) by {
            assert forall|j: int| 0 <= j < c0@.len() implies -0 <= (#[trigger] c0@[j]).0 <= 0x1_0000 + 0
                && -0 <= c0@[j].1 <= 0x1_0000 + 0 by {
                assert(c0s[j] == (c0@[j].0 as int, c0@[j].1 as int));
            }
        }
        assert(c0s.no_duplicates()) by {
            assert forall|a: int, b: int| 0 <= a < b < c0s.len() implies c0s[a] != c0s[b] by {
                assert(p[a] != p[b]);
            }
        }
        let r = evolve(&c0);
        let ghost rr = r;
        match r {
            None => {
                assert(evolved(c0s, rr));
                return false;
            },
            Some(v) => {
                assert(rr->0 == v);
                assert(evolved(c0s, rr));
                let ghost h = choose|h: Seq<Seq<(int, int)>>| #[trigger] cycle_found(c0s, h, v);
                let (cells, links, ox, oy, mt) = v;
                assert(cycle_of(c0s, h, mt as int, ox as int, oy as int, cells@, links@));
                let comps = components(&cells, &links);
                let ghost old_vec = self.vec@;
                let ghost cv = comps@.map_values(|w: Vec<Pt3>| w@);
                let mut k: usize = 0;
                while k < comps.len()
                    invariant
                        k <= comps.len(),
                        cv == comps@.map_values(|w: Vec<Pt3>| w@),
                        self.vec@.len() == old_vec.len() + k,
                        self.vec@.take(old_vec.len() as int) == old_vec,
                        self.wf(),
                        components_of(cells@, links@, cv),
                        cycle_of(c0s, h, mt as int, ox as int, oy as int, cells@, links@),
                        forall|j: int| 0 <= j < k ==> (#[trigger] self.vec@[old_vec.len() + j]).cells@ == cv[j]
                            && self.vec@[old_vec.len() + j].ox == ox && self.vec@[old_vec.len() + j].oy == oy
                            && self.vec@[old_vec.len() + j].mt == mt,
                    decreases comps.len() - k,
                {
                    let cells_k = copy_pts(&comps[k]);
                    assert(cv[k as int] == comps@[k as int]@);
                    assert(pattern_ok(GolPattern { cells: cells_k, ox: ox, oy: oy, mt: mt })) by {
                        assert(cv[k as int].len() > 0);
                        assert forall|c: Pt3| #[trigger] cells_k@.contains(c) implies small(c.0 as int) && small(c.1 as int) && c.2 < mt by {
                            assert(cv[k as int].contains(c));
                            assert(cells@.contains(c));
                        }
                    }
                    let ghost prev = self.vec@;
                    self.vec.push(GolPattern { cells: cells_k, ox: ox, oy: oy, mt: mt });
                    assert(self.vec@ =~= prev.push(GolPattern { cells: cells_k, ox: ox, oy: oy, mt: mt }));
                    assert(self.vec@.take(old_vec.len() as int) =~= prev.take(old_vec.len() as int));
                    assert forall|j: int| 0 <= j < self.vec@.len() implies pattern_ok(#[trigger] self.vec@[j]) by {
                        if j < prev.len() {
                            assert(self.vec@[j] == prev[j]);
                        }
                    }
                    k = k + 1;
                }
                let ghost nv = self.vec@;
                let ghost mv = nv.skip(old_vec.len() as int).map_values(|q: GolPattern| q.cells@);
                assert(mv =~= cv) by {
                    assert forall|j: int| 0 <= j < cv.len() implies #[trigger] mv[j] == cv[j] by {
                        assert(nv.skip(old_vec.len() as int)[j] == nv[old_vec.len() + j]);
                    }
                }
                assert forall|j: int| old_vec.len() <= j < nv.len() implies (#[trigger] nv[j]).ox == ox
                    && nv[j].oy == oy && nv[j].mt == mt by {
                    assert(nv[old_vec.len() + (j - old_vec.len())] == nv[j]);
                }
                assert(patterns_added(old_vec, nv, cells@, links@, ox as int, oy as int, mt as int));
                assert(loaded(ls, old_vec, nv));
                true
            },
        }
    }
}

// ---------------------------------------------------------------------------------------------
// Slices of patterns, for searches
// ---------------------------------------------------------------------------------------------

/// Two consecutive rows of a pattern seen by a search: the cells `(x, t)` of each, over the
/// generations `0..mt` of the search.
pub struct GolSlice {
    pub r0: Vec<(isize, usize)>,
    pub r1: Vec<(isize, usize)>,
    pub mt: usize,
}

pub open spec fn row_int(v: Seq<(isize, usize)>) -> Seq<(int, int)> {
    v.map_values(|c: (isize, usize)| (c.0 as int, c.1 as int))
}

pub open spec fn pts_int(v: Seq<Pt3>) -> Seq<(int, int, int)> {
    v.map_values(|c: Pt3| pt_int(c))
}

/// `a / b` rounded toward zero, as Rust's `/` on signed integers does (for `b > 0`).
pub open spec fn trunc_div(a: int, b: int) -> int {
    if a >= 0 {
        a / b
    } else {
        -((-a) / b)
    }
}

/// The reflections and transposition numbered `o` (`0..8`): `(fx, fy, sw)`.
pub open spec fn orient(o: int) -> (int, int, bool) {
    (if o / 4 == 0 { -1 } else { 1 }, if (o / 2) % 2 == 0 { -1 } else { 1 }, o % 2 == 1)
}

/// The move of the pattern `p` once reflected and transposed by orientation `o`.
pub open spec fn oriented_move(p: GolPattern, o: int) -> (int, int) {
    let (fx, fy, sw) = orient(o);
    let ox2 = p.ox * fx;
    let oy2 = p.oy * fy;
    if sw {
        (oy2, ox2)
    } else {
        (ox2, oy2)
    }
}

/// The point `c` of the pattern `p` as a search for patterns that move by `(ox, oy)` every `mt`
/// generations sees it: started `dt` generations later, taken `r` periods on, reflected and
/// transposed by orientation `o`, and moved back by as much of the search's move as `t`
/// generations make (rounded toward zero).
pub open spec fn slice_pt(p: GolPattern, o: int, dt: int, ox: int, oy: int, mt: int, c: Pt3, r: int) -> (int, int, int) {
    let (fx, fy, sw) = orient(o);
    let ta = c.2 + dt;
    let x2 = if ta >= p.mt { c.0 - p.ox } else { c.0 as int };
    let y2 = if ta >= p.mt { c.1 - p.oy } else { c.1 as int };
    let t2 = if ta >= p.mt { ta - p.mt } else { ta };
    let x3 = (x2 + r * p.ox) * fx;
    let y3 = (y2 + r * p.oy) * fy;
    let t3 = t2 + r * p.mt;
    let x4 = if sw { y3 } else { x3 };
    let y4 = if sw { x3 } else { y3 };
    (x4 - trunc_div(t3 * ox, mt), y4 - trunc_div(t3 * oy, mt), t3)
}

/// `q` is a cell of the pattern `p` seen in orientation `o`, `dt` generations on, over the
/// search's `mt` generations.
pub open spec fn in_slice_cells(p: GolPattern, o: int, dt: int, ox: int, oy: int, mt: int, q: (int, int, int)) -> bool {
    exists|c: Pt3, r: int|
        #![trigger p.cells@.contains(c), slice_pt(p, o, dt, ox, oy, mt, c, r)]
        p.cells@.contains(c) && 0 <= r < mt / (p.mt as int) && q == slice_pt(p, o, dt, ox, oy, mt, c, r)
}

/// A slice is wanted for row `y0` of the pattern `p` seen in orientation `o`, `dt` generations on:
/// the search's period is a multiple of the pattern's, the orientation moves as the search does,
/// and rows `y0` and `y0 + 1` are not both outside the cells.
pub open spec fn slice_wanted(p: GolPattern, o: int, dt: int, ox: int, oy: int, mt: int, y0: int) -> bool {
    let mul = mt / (p.mt as int);
    let (ox2, oy2) = oriented_move(p, o);
    &&& mt % (p.mt as int) == 0
    &&& 0 <= o < 8
    &&& 0 <= dt < p.mt
    &&& ox2 * mul == ox
    &&& oy2 * mul == oy
    &&& exists|q: (int, int, int)| #[trigger] in_slice_cells(p, o, dt, ox, oy, mt, q) && q.1 <= y0 + 1
    &&& exists|q: (int, int, int)| #[trigger] in_slice_cells(p, o, dt, ox, oy, mt, q) && y0 <= q.1
}

/// `s` holds rows `y0` and `y0 + 1` of the pattern `p` seen in orientation `o`, `dt` generations on.
pub open spec fn slice_of(p: GolPattern, o: int, dt: int, ox: int, oy: int, mt: int, y0: int, s: GolSlice) -> bool {
    &&& slice_wanted(p, o, dt, ox, oy, mt, y0)
    &&& s.mt == mt
    &&& row_int(s.r0@).no_duplicates()
    &&& row_int(s.r1@).no_duplicates()
    &&& forall|q: (int, int)| #[trigger] row_int(s.r0@).contains(q) <==> in_slice_cells(p, o, dt, ox, oy, mt, (q.0, y0, q.1))
    &&& forall|q: (int, int)| #[trigger] row_int(s.r1@).contains(q) <==> in_slice_cells(p, o, dt, ox, oy, mt, (q.0, y0 + 1, q.1))
}

/// Bounds on a search under which slicing cannot overflow.
pub open spec fn search_ok(ox: int, oy: int, mt: int) -> bool {
    1 <= mt <= 0x400 && -0x400 <= ox <= 0x400 && -0x400 <= oy <= 0x400
}

fn tdiv(a: isize, b: isize) -> (r: isize)
    requires
        b > 0,
        -0x1000_0000 <= a <= 0x1000_0000,
    ensures
        r == trunc_div(a as int, b as int),
        -0x1000_0000 <= r <= 0x1000_0000,
{
    if a >= 0 {
        proof {
            vstd::arithmetic::div_mod::lemma_div_pos_is_pos(a as int, b as int);
            vstd::arithmetic::div_mod::lemma_div_is_ordered_by_denominator(a as int, 1, b as int);
        }
        a / b
    } else {
        let na = -a;
        proof {
            vstd::arithmetic::div_mod::lemma_div_pos_is_pos(na as int, b as int);
            vstd::arithmetic::div_mod::lemma_div_is_ordered_by_denominator(na as int, 1, b as int);
        }
        -(na / b)
    }
}

proof fn lemma_mul_bound(a: int, b: int, am: int, bm: int)
    requires
        0 <= a <= am,
        -bm <= b <= bm,
    ensures
        -(am * bm) <= a * b <= am * bm,
{
    assert(-(am * bm) <= a * b <= am * bm) by (nonlinear_arith)
        requires
            0 <= a <= am,
            -bm <= b <= bm,
    ;
}

impl GolPattern {
    /// The point `c` of the pattern as the search sees it (see `slice_pt`).
    #[verifier::spinoff_prover]
    #[verifier::rlimit(40)]
    fn slice_point(&self, o: usize, dt: usize, ox: isize, oy: isize, mt: usize, c: Pt3, r: usize) -> (q: Pt3)
        requires
            pattern_ok(*self),
            search_ok(ox as int, oy as int, mt as int),
            o < 8,
            dt < self.mt,
            self.cells@.contains(c),
            mt % self.mt == 0,
            r < mt / self.mt,
        ensures
            pt_int(q) == slice_pt(*self, o as int, dt as int, ox as int, oy as int, mt as int, c, r as int),
            -0x1000_0000 <= q.0 <= 0x1000_0000,
            -0x1000_0000 <= q.1 <= 0x1000_0000,
            q.2 < mt,
    {
        let ghost mul = mt / self.mt;
        proof {
            vstd::arithmetic::div_mod::lemma_fundamental_div_mod(mt as int, self.mt as int);
            assert(mul * self.mt == mt);
            assert(mul <= mt) by (nonlinear_arith)
                requires
                    mul * self.mt == mt,
                    self.mt >= 1,
                    mul >= 0,
            ;
        }
        let fx: isize = if o / 4 == 0 {
            -1
        } else {
            1
        };
        let fy: isize = if (o / 2) % 2 == 0 {
            -1
        } else {
            1
        };
        let sw = o % 2 == 1;
        let ta = c.2 + dt;
        let (x2, y2, t2) = if ta >= self.mt {
            (c.0 - self.ox, c.1 - self.oy, ta - self.mt)
        } else {
            (c.0, c.1, ta)
        };
        proof {
            lemma_mul_bound(r as int, self.ox as int, 0x400, 0x2_0000);
            lemma_mul_bound(r as int, self.oy as int, 0x400, 0x2_0000);
            assert(r * self.mt + self.mt <= mt) by (nonlinear_arith)
                requires
                    mul * self.mt == mt,
                    r < mul,
                    self.mt >= 1,
            ;
        }
        let x3 = (x2 + (r as isize) * self.ox) * fx;
        let y3 = (y2 + (r as isize) * self.oy) * fy;
        let t3 = t2 + r * self.mt;
        let (x4, y4) = if sw {
            (y3, x3)
        } else {
            (x3, y3)
        };
        proof {
            lemma_mul_bound(t3 as int, ox as int, 0x400, 0x400);
            lemma_mul_bound(t3 as int, oy as int, 0x400, 0x400);
        }
        let sx = tdiv((t3 as isize) * ox, mt as isize);
        let sy = tdiv((t3 as isize) * oy, mt as isize);
        let q = (x4 - sx, y4 - sy, t3);
        assert(orient(o as int) == (fx as int, fy as int, sw));
        q
    }

    /// The cells of the pattern seen in orientation `o`, `dt` generations on, over the search's
    /// `mt` generations, each once.
    fn slice_cells(&self, o: usize, dt: usize, ox: isize, oy: isize, mt: usize) -> (r: Vec<Pt3>)
        requires
            pattern_ok(*self),
            search_ok(ox as int, oy as int, mt as int),
            o < 8,
            dt < self.mt,
            mt % self.mt == 0,
        ensures
            pts_int(r@).no_duplicates(),
            r@.len() > 0,
            forall|q: (int, int, int)| #[trigger] pts_int(r@).contains(q) <==> in_slice_cells(
                *self,
                o as int,
                dt as int,
                ox as int,
                oy as int,
                mt as int,
                q,
            ),
            forall|i: int| 0 <= i < r@.len() ==> -0x1000_0000 <= (#[trigger] r@[i]).0 <= 0x1000_0000 && -0x1000_0000 <= r@[i].1 <= 0x1000_0000,
    {
        let ghost pat = *self;
        let mul = mt / self.mt;
        proof {
            vstd::arithmetic::div_mod::lemma_fundamental_div_mod(mt as int, self.mt as int);
            assert(mul >= 1) by (nonlinear_arith)
                requires
                    mul * self.mt + 0 == mt,
                    mt >= 1,
                    self.mt >= 1,
                    mul >= 0,
            ;
        }
        let ghost cs = self.cells@;
        let mut out: Vec<Pt3> = Vec::new();
        let mut i: usize = 0;
        while i < self.cells.len()
            invariant
                i <= self.cells.len(),
                pat == *self,
                cs == self.cells@,
                mul == mt / self.mt,
                mul >= 1,
                pattern_ok(*self),
                search_ok(ox as int, oy as int, mt as int),
                o < 8,
                dt < self.mt,
                mt % self.mt == 0,
                pts_int(out@).no_duplicates(),
                i > 0 ==> out@.len() > 0,
                forall|k: int| 0 <= k < out@.len() ==> -0x1000_0000 <= (#[trigger] out@[k]).0 <= 0x1000_0000 && -0x1000_0000 <= out@[k].1 <= 0x1000_0000,
                forall|q: (int, int, int)| #[trigger] pts_int(out@).contains(q) <==> exists|i2: int, r2: int|
                    0 <= i2 < i && 0 <= r2 < mul && q == #[trigger] slice_pt(pat, o as int, dt as int, ox as int, oy as int, mt as int, cs[i2], r2),
            decreases self.cells.len() - i,
        {
            let c = self.cells[i];
            assert(cs.contains(c));
            let mut r: usize = 0;
            while r < mul
                invariant
                    i < self.cells.len(),
                    c == cs[i as int],
                    cs.contains(c),
                    r <= mul,
                    pat == *self,
                    cs == self.cells@,
                    mul == mt / self.mt,
                    mul >= 1,
                    pattern_ok(*self),
                    search_ok(ox as int, oy as int, mt as int),
                    o < 8,
                    dt < self.mt,
                    mt % self.mt == 0,
                    pts_int(out@).no_duplicates(),
                    i > 0 || r > 0 ==> out@.len() > 0,
                    forall|k: int| 0 <= k < out@.len() ==> -0x1000_0000 <= (#[trigger] out@[k]).0 <= 0x1000_0000 && -0x1000_0000 <= out@[k].1 <= 0x1000_0000,
                    forall|q: (int, int, int)| #[trigger] pts_int(out@).contains(q) <==> (exists|i2: int, r2: int|
                        0 <= i2 < i && 0 <= r2 < mul && q == #[trigger] slice_pt(pat, o as int, dt as int, ox as int, oy as int, mt as int, cs[i2], r2))
                        || (exists|r2: int| 0 <= r2 < r && q == #[trigger] slice_pt(pat, o as int, dt as int, ox as int, oy as int, mt as int, c, r2)),
                decreases mul - r,
            {
                let q = self.slice_point(o, dt, ox, oy, mt, c, r);
                let ghost qi = pt_int(q);
                let ghost sp = slice_pt(pat, o as int, dt as int, ox as int, oy as int, mt as int, c, r as int);
                if !contains_pt(&out, q) {
                    let ghost prev = out@;
                    out.push(q);
                    assert(out@ =~= prev.push(q));
                    assert(pts_int(out@) =~= pts_int(prev).push(qi));
                    assert(!pts_int(prev).contains(qi)) by {
                        if pts_int(prev).contains(qi) {
                            let j = choose|j: int| 0 <= j < prev.len() && pts_int(prev)[j] == qi;
                            assert(prev[j] == q);
                        }
                    }
                    assert forall|q2: (int, int, int)| #[trigger] pts_int(out@).contains(q2) <==> (exists|i2: int, r2: int|
                        0 <= i2 < i && 0 <= r2 < mul && q2 == #[trigger] slice_pt(pat, o as int, dt as int, ox as int, oy as int, mt as int, cs[i2], r2))
                        || (exists|r2: int| 0 <= r2 < r + 1 && q2 == #[trigger] slice_pt(pat, o as int, dt as int, ox as int, oy as int, mt as int, c, r2)) by {
                        if q2 == qi {
                            assert(pts_int(out@)[prev.len() as int] == q2);
                        }
                        if pts_int(prev).contains(q2) {
                            let j = choose|j: int| 0 <= j < prev.len() && pts_int(prev)[j] == q2;
                            assert(pts_int(out@)[j] == q2);
                        }
                        if pts_int(out@).contains(q2) && q2 != qi {
                            let j = choose|j: int| 0 <= j < out@.len() && pts_int(out@)[j] == q2;
                            assert(pts_int(prev)[j] == q2);
                        }
                    }
                } else {
                    assert(pts_int(out@).contains(qi)) by {
                        let j = choose|j: int| 0 <= j < out@.len() && out@[j] == q;
                        assert(pts_int(out@)[j] == qi);
                    }
                    assert forall|q2: (int, int, int)| #[trigger] pts_int(out@).contains(q2) <==> (exists|i2: int, r2: int|
                        0 <= i2 < i && 0 <= r2 < mul && q2 == #[trigger] slice_pt(pat, o as int, dt as int, ox as int, oy as int, mt as int, cs[i2], r2))
                        || (exists|r2: int| 0 <= r2 < r + 1 && q2 == #[trigger] slice_pt(pat, o as int, dt as int, ox as int, oy as int, mt as int, c, r2)) by {
                        if exists|r2: int| 0 <= r2 < r + 1 && q2 == #[trigger] slice_pt(pat, o as int, dt as int, ox as int, oy as int, mt as int, c, r2) {
                            let r2 = choose|r2: int| 0 <= r2 < r + 1 && q2 == #[trigger] slice_pt(pat, o as int, dt as int, ox as int, oy as int, mt as int, c, r2);
                            if r2 == r {
                                assert(q2 == qi);
                            }
                        }
                    }
                }
                r = r + 1;
            }
            assert forall|q2: (int, int, int)| #[trigger] pts_int(out@).contains(q2) <==> exists|i2: int, r2: int|
                0 <= i2 < i + 1 && 0 <= r2 < mul && q2 == #[trigger] slice_pt(pat, o as int, dt as int, ox as int, oy as int, mt as int, cs[i2], r2) by {
                if exists|i2: int, r2: int|
                    0 <= i2 < i + 1 && 0 <= r2 < mul && q2 == #[trigger] slice_pt(pat, o as int, dt as int, ox as int, oy as int, mt as int, cs[i2], r2) {
                    let (i2, r2) = choose|i2: int, r2: int|
                        0 <= i2 < i + 1 && 0 <= r2 < mul && q2 == #[trigger] slice_pt(pat, o as int, dt as int, ox as int, oy as int, mt as int, cs[i2], r2);
                    if i2 == i {
                        assert(q2 == slice_pt(pat, o as int, dt as int, ox as int, oy as int, mt as int, c, r2));
                    }
                }
            }
            i = i + 1;
        }
        assert forall|q: (int, int, int)| #[trigger] pts_int(out@).contains(q) <==> in_slice_cells(
            pat, o as int, dt as int, ox as int, oy as int, mt as int, q) by {
            if in_slice_cells(pat, o as int, dt as int, ox as int, oy as int, mt as int, q) {
                let (c, r2) = choose|c: Pt3, r2: int|
                    #![trigger pat.cells@.contains(c), slice_pt(pat, o as int, dt as int, ox as int, oy as int, mt as int, c, r2)]
                    pat.cells@.contains(c) && 0 <= r2 < (mt as int) / (pat.mt as int) && q == slice_pt(pat, o as int, dt as int, ox as int, oy as int, mt as int, c, r2);
                let i2 = choose|i2: int| 0 <= i2 < cs.len() && cs[i2] == c;
                assert(q == slice_pt(pat, o as int, dt as int, ox as int, oy as int, mt as int, cs[i2], r2));
            }
            if pts_int(out@).contains(q) {
                let (i2, r2) = choose|i2: int, r2: int|
                    0 <= i2 < cs.len() && 0 <= r2 < mul && q == #[trigger] slice_pt(pat, o as int, dt as int, ox as int, oy as int, mt as int, cs[i2], r2);
                assert(cs.contains(cs[i2]));
            }
        }
        out
    }
}

/// Some slice of `acc` from index `from` on holds rows `y0`, `y0 + 1` of orientation `o`, `dt`.
pub open spec fn found(p: GolPattern, ox: int, oy: int, mt: int, acc: Seq<GolSlice>, from: int, o: int, dt: int, y0: int) -> bool {
    exists|i: int| from <= i < acc.len() && #[trigger] slice_of(p, o, dt, ox, oy, mt, y0, acc[i])
}

/// Every slice of `acc` from index `from` on holds two rows of the pattern `p` seen by the search.
pub open spec fn all_sound(p: GolPattern, ox: int, oy: int, mt: int, acc: Seq<GolSlice>, from: int) -> bool {
    forall|i: int| from <= i < acc.len() ==> #[trigger] sound_at(p, ox, oy, mt, acc, i)
}

/// Slice `i` of `acc` holds two rows of one of the patterns `ps` seen by the search.
pub open spec fn sound_in(ps: Seq<GolPattern>, ox: int, oy: int, mt: int, acc: Seq<GolSlice>, i: int) -> bool {
    exists|k: int| 0 <= k < ps.len() && #[trigger] sound_at(ps[k], ox, oy, mt, acc, i)
}

/// Slice `i` of `acc` holds two rows of the pattern `p` seen by the search.
pub open spec fn sound_at(p: GolPattern, ox: int, oy: int, mt: int, acc: Seq<GolSlice>, i: int) -> bool {
    exists|o: int, dt: int, y0: int| #[trigger] slice_of(p, o, dt, ox, oy, mt, y0, acc[i])
}

proof fn lemma_found_push(p: GolPattern, ox: int, oy: int, mt: int, acc: Seq<GolSlice>, from: int, s: GolSlice)
    requires
        0 <= from <= acc.len(),
    ensures
        forall|o: int, dt: int, y0: int| found(p, ox, oy, mt, acc, from, o, dt, y0) ==> #[trigger] found(p, ox, oy, mt, acc.push(s), from, o, dt, y0),
        all_sound(p, ox, oy, mt, acc, from) && (exists|o: int, dt: int, y0: int| #[trigger] slice_of(p, o, dt, ox, oy, mt, y0, s))
            ==> all_sound(p, ox, oy, mt, acc.push(s), from),
{
    assert forall|o: int, dt: int, y0: int| found(p, ox, oy, mt, acc, from, o, dt, y0) implies #[trigger] found(p, ox, oy, mt, acc.push(s), from, o, dt, y0) by {
        let i = choose|i: int| from <= i < acc.len() && #[trigger] slice_of(p, o, dt, ox, oy, mt, y0, acc[i]);
        assert(acc.push(s)[i] == acc[i]);
    }
    if all_sound(p, ox, oy, mt, acc, from) && (exists|o: int, dt: int, y0: int| #[trigger] slice_of(p, o, dt, ox, oy, mt, y0, s)) {
        let acc2 = acc.push(s);
        assert forall|i: int| from <= i < acc2.len() implies #[trigger] sound_at(p, ox, oy, mt, acc2, i) by {
            if i < acc.len() {
                assert(acc2[i] == acc[i]);
                assert(sound_at(p, ox, oy, mt, acc, i));
                let (o, dt, y0) = choose|o: int, dt: int, y0: int| #[trigger] slice_of(p, o, dt, ox, oy, mt, y0, acc[i]);
                assert(slice_of(p, o, dt, ox, oy, mt, y0, acc2[i]));
            } else {
                assert(acc2[i] == s);
                let (o, dt, y0) = choose|o: int, dt: int, y0: int| #[trigger] slice_of(p, o, dt, ox, oy, mt, y0, s);
                assert(slice_of(p, o, dt, ox, oy, mt, y0, acc2[i]));
            }
        }
        assert(all_sound(p, ox, oy, mt, acc2, from));
    }
}

/// The cells `(x, t)` of row `y` of the points `cells`, each once.
fn slice_row(cells: &Vec<Pt3>, y: isize) -> (r: Vec<(isize, usize)>)
    requires
        pts_int(cells@).no_duplicates(),
    ensures
        row_int(r@).no_duplicates(),
        forall|q: (int, int)| #[trigger] row_int(r@).contains(q) <==> pts_int(cells@).contains((q.0, y as int, q.1)),
{
    let ghost ps = pts_int(cells@);
    let mut out: Vec<(isize, usize)> = Vec::new();
    let mut i: usize = 0;
    while i < cells.len()
        invariant
            i <= cells.len(),
            ps == pts_int(cells@),
            ps.no_duplicates(),
            row_int(out@).no_duplicates(),
            forall|q: (int, int)| #[trigger] row_int(out@).contains(q) <==> exists|j: int| 0 <= j < i && ps[j] == (q.0, y as int, q.1),
        decreases cells.len() - i,
    {
        let c = cells[i];
        assert(ps[i as int] == pt_int(c));
        if c.1 == y {
            let ghost qi = (c.0 as int, c.2 as int);
            let ghost prev = row_int(out@);
            assert(!prev.contains(qi)) by {
                if prev.contains(qi) {
                    let j = choose|j: int| 0 <= j < i && ps[j] == (qi.0, y as int, qi.1);
                    assert(ps[j] == ps[i as int]);
                }
            }
            out.push((c.0, c.2));
            assert(row_int(out@) =~= prev.push(qi));
            assert forall|q: (int, int)| #[trigger] row_int(out@).contains(q) <==> exists|j: int| 0 <= j < i + 1 && ps[j] == (q.0, y as int, q.1) by {
                if q == qi {
                    assert(row_int(out@)[prev.len() as int] == q);
                }
                if prev.contains(q) {
                    let j = choose|j: int| 0 <= j < prev.len() && prev[j] == q;
                    assert(row_int(out@)[j] == q);
                }
                if row_int(out@).contains(q) && q != qi {
                    let j = choose|j: int| 0 <= j < row_int(out@).len() && row_int(out@)[j] == q;
                    assert(prev[j] == q);
                }
            }
        } else {
            assert forall|q: (int, int)| #[trigger] row_int(out@).contains(q) <==> exists|j: int| 0 <= j < i + 1 && ps[j] == (q.0, y as int, q.1) by {
                if exists|j: int| 0 <= j < i + 1 && ps[j] == (q.0, y as int, q.1) {
                    let j = choose|j: int| 0 <= j < i + 1 && ps[j] == (q.0, y as int, q.1);
                    if j == i {
                        assert(false);
                    }
                }
            }
        }
        i = i + 1;
    }
    assert forall|q: (int, int)| #[trigger] row_int(out@).contains(q) <==> ps.contains((q.0, y as int, q.1)) by {
        if ps.contains((q.0, y as int, q.1)) {
            let j = choose|j: int| 0 <= j < ps.len() && ps[j] == (q.0, y as int, q.1);
        }
    }
    out
}

/// The lowest and highest row of the points `cells`.
fn y_range(cells: &Vec<Pt3>) -> (r: (isize, isize))
    requires
        cells@.len() > 0,
    ensures
        exists|i: int| 0 <= i < cells@.len() && (#[trigger] cells@[i]).1 == r.0,
        exists|i: int| 0 <= i < cells@.len() && (#[trigger] cells@[i]).1 == r.1,
        forall|i: int| 0 <= i < cells@.len() ==> r.0 <= (#[trigger] cells@[i]).1 <= r.1,
{
    let mut lo = cells[0].1;
    let mut hi = cells[0].1;
    let mut wl: usize = 0;
    let mut wh: usize = 0;
    let mut i: usize = 1;
    while i < cells.len()
        invariant
            1 <= i <= cells.len(),
            wl < i && wh < i,
            cells@[wl as int].1 == lo,
            cells@[wh as int].1 == hi,
            forall|j: int| 0 <= j < i ==> lo <= (#[trigger] cells@[j]).1 <= hi,
        decreases cells.len() - i,
    {
        if cells[i].1 < lo {
            lo = cells[i].1;
            wl = i;
        }
        if cells[i].1 > hi {
            hi = cells[i].1;
            wh = i;
        }
        i = i + 1;
    }
    assert(cells@[wl as int].1 == lo);
    assert(cells@[wh as int].1 == hi);
    (lo, hi)
}

/// `found`, with `(o, dt, y)` among the positions `trip` that the slices were taken at.
pub open spec fn found_at(
    p: GolPattern,
    ox: int,
    oy: int,
    mt: int,
    acc: Seq<GolSlice>,
    from: int,
    trip: Seq<(int, int, int)>,
    o: int,
    dt: int,
    y: int,
) -> bool {
    found(p, ox, oy, mt, acc, from, o, dt, y) && trip.contains((o, dt, y))
}

/// `a` comes before `(o, dt, y)` in the order of orientation, then generation, then row.
pub open spec fn before3(a: (int, int, int), o: int, dt: int, y: int) -> bool {
    a.0 < o || (a.0 == o && (a.1 < dt || (a.1 == dt && a.2 < y)))
}

/// The slices of `acc` from `from` on are, in turn, the slices of `p` at the orientations,
/// generations and rows `trip`, each coming after the one before.
pub open spec fn slices_traced(
    p: GolPattern,
    ox: int,
    oy: int,
    mt: int,
    acc: Seq<GolSlice>,
    from: int,
    trip: Seq<(int, int, int)>,
) -> bool {
    &&& trip.len() == acc.len() - from
    &&& forall|i: int|
        0 <= i < trip.len() ==> #[trigger] slice_of(p, trip[i].0, trip[i].1, ox, oy, mt, trip[i].2, acc[from + i])
    &&& forall|i: int, j: int| 0 <= i < j < trip.len() ==> before3(#[trigger] trip[i], trip[j].0, trip[j].1, #[trigger] trip[j].2)
}

impl GolPattern {
    /// Appends to `acc` every pair of consecutive rows, `y0` and `y0 + 1`, of the pattern as a
    /// search for patterns moving `(ox, oy)` every `mt` generations sees it, over every
    /// orientation whose move fits the search's, every starting generation, and every `y0` from
    /// one above the lowest row of cells to the highest.  Adds nothing where `mt` is not a
    /// multiple of the pattern's period.
    fn find_slices(&self, acc: &mut Vec<GolSlice>, ox: isize, oy: isize, mt: usize)
        requires
            pattern_ok(*self),
            search_ok(ox as int, oy as int, mt as int),
        ensures
            final(acc)@.len() >= old(acc)@.len(),
            final(acc)@.take(old(acc)@.len() as int) == old(acc)@,
            all_sound(*self, ox as int, oy as int, mt as int, final(acc)@, old(acc)@.len() as int),
            forall|o: int, dt: int, y0: int|
                slice_wanted(*self, o, dt, ox as int, oy as int, mt as int, y0) ==> #[trigger] found(
                    *self,
                    ox as int,
                    oy as int,
                    mt as int,
                    final(acc)@,
                    old(acc)@.len() as int,
                    o,
                    dt,
                    y0,
                ),
            exists|trip: Seq<(int, int, int)>|
                #[trigger] slices_traced(*self, ox as int, oy as int, mt as int, final(acc)@, old(acc)@.len() as int, trip)
                    && forall|o: int, dt: int, y0: int|
                    slice_wanted(*self, o, dt, ox as int, oy as int, mt as int, y0) ==> #[trigger] trip.contains((o, dt, y0)),
    {
        let ghost pat = *self;
        let ghost a0 = acc@;
        let ghost from = a0.len() as int;
        let ghost (iox, ioy, imt) = (ox as int, oy as int, mt as int);
        let ghost mut trip: Seq<(int, int, int)> = Seq::empty();
        assert(slices_traced(pat, iox, ioy, imt, acc@, from, trip));
        if mt % self.mt != 0 {
            assert(acc@.take(from) =~= a0);
            return;
        }
        let mul = mt / self.mt;
        proof {
            vstd::arithmetic::div_mod::lemma_fundamental_div_mod(mt as int, self.mt as int);
            vstd::arithmetic::mul::lemma_mul_is_commutative(mul as int, self.mt as int);
            assert(mul * self.mt == mt);
            assert(mul <= mt) by (nonlinear_arith)
                requires
                    mul * self.mt == mt,
                    self.mt >= 1,
                    mul >= 0,
            ;
        }
        assert(acc@.take(from) =~= a0);
        let mut o: usize = 0;
        while o < 8
            invariant
                o <= 8,
                pat == *self,
                pattern_ok(*self),
                search_ok(ox as int, oy as int, mt as int),
                (iox, ioy, imt) == (ox as int, oy as int, mt as int),
                mt % self.mt == 0,
                mul == mt / self.mt,
                mul * self.mt == mt,
                mul <= mt,
                acc@.len() >= from,
                from == a0.len(),
                acc@.take(from) == a0,
                all_sound(pat, iox, ioy, imt, acc@, from),
                slices_traced(pat, iox, ioy, imt, acc@, from, trip),
                forall|i: int| 0 <= i < trip.len() ==> (#[trigger] trip[i]).0 < o,
                forall|o2: int, dt2: int, y2: int|
                    o2 < o && slice_wanted(pat, o2, dt2, iox, ioy, imt, y2) ==> #[trigger] found_at(pat, iox, ioy, imt, acc@, from, trip, o2, dt2, y2),
            decreases 8 - o,
        {
            let fx: isize = if o / 4 == 0 {
                -1
            } else {
                1
            };
            let fy: isize = if (o / 2) % 2 == 0 {
                -1
            } else {
                1
            };
            let sw = o % 2 == 1;
            assert(orient(o as int) == (fx as int, fy as int, sw));
            let a = self.ox * fx;
            let b = self.oy * fy;
            let (ox2, oy2) = if sw {
                (b, a)
            } else {
                (a, b)
            };
            assert((ox2 as int, oy2 as int) == oriented_move(pat, o as int));
            proof {
                lemma_mul_bound(mul as int, ox2 as int, 0x400, 0x2_0000);
                lemma_mul_bound(mul as int, oy2 as int, 0x400, 0x2_0000);
                vstd::arithmetic::mul::lemma_mul_is_commutative(mul as int, ox2 as int);
                vstd::arithmetic::mul::lemma_mul_is_commutative(mul as int, oy2 as int);
                assert(-0x800_0000 <= ox2 * mul <= 0x800_0000);
                assert(-0x800_0000 <= oy2 * mul <= 0x800_0000);
            }
            if ox2 * (mul as isize) != ox || oy2 * (mul as isize) != oy {
                assert forall|o2: int, dt2: int, y2: int|
                    o2 < o + 1 && slice_wanted(pat, o2, dt2, iox, ioy, imt, y2) implies #[trigger] found_at(pat, iox, ioy, imt, acc@, from, trip, o2, dt2, y2) by {
                    if o2 == o {
                        assert(ox2 * mul == iox && oy2 * mul == ioy) by (nonlinear_arith)
                            requires
                                slice_wanted(pat, o2, dt2, iox, ioy, imt, y2),
                                o2 == o,
                                (ox2 as int, oy2 as int) == oriented_move(pat, o as int),
                                mul == imt / (pat.mt as int),
                        ;
                    }
                }
                o = o + 1;
                continue;
            }
            let mut dt: usize = 0;
            while dt < self.mt
                invariant
                    o < 8,
                    dt <= self.mt,
                    pat == *self,
                    pattern_ok(*self),
                    search_ok(ox as int, oy as int, mt as int),
                    (iox, ioy, imt) == (ox as int, oy as int, mt as int),
                    mt % self.mt == 0,
                    mul == mt / self.mt,
                    mul * self.mt == mt,
                    (ox2 as int, oy2 as int) == oriented_move(pat, o as int),
                    ox2 * mul == iox && oy2 * mul == ioy,
                    acc@.len() >= from,
                    from == a0.len(),
                    acc@.take(from) == a0,
                    all_sound(pat, iox, ioy, imt, acc@, from),
                    slices_traced(pat, iox, ioy, imt, acc@, from, trip),
                    forall|i: int| 0 <= i < trip.len() ==> (#[trigger] trip[i]).0 < o || (trip[i].0 == o && trip[i].1 < dt),
                    forall|o2: int, dt2: int, y2: int|
                        (o2 < o || (o2 == o && dt2 < dt)) && slice_wanted(pat, o2, dt2, iox, ioy, imt, y2)
                            ==> #[trigger] found_at(pat, iox, ioy, imt, acc@, from, trip, o2, dt2, y2),
                decreases self.mt - dt,
            {
                let cells2 = self.slice_cells(o, dt, ox, oy, mt);
                let ghost ps = pts_int(cells2@);
                let (lo, hi) = y_range(&cells2);
                let ghost wl = choose|i: int| 0 <= i < cells2@.len() && (#[trigger] cells2@[i]).1 == lo;
                let ghost wh = choose|i: int| 0 <= i < cells2@.len() && (#[trigger] cells2@[i]).1 == hi;
                assert(ps[wl] == pt_int(cells2@[wl]) && ps[wh] == pt_int(cells2@[wh]));
                assert(ps.contains(ps[wl]) && ps.contains(ps[wh]));
                let mut y0 = lo - 1;
                assert forall|o2: int, dt2: int, y2: int|
                    (o2 < o || (o2 == o && dt2 < dt) || (o2 == o && dt2 == dt && y2 < y0)) && slice_wanted(pat, o2, dt2, iox, ioy, imt, y2)
                        implies #[trigger] found_at(pat, iox, ioy, imt, acc@, from, trip, o2, dt2, y2) by {
                    if o2 == o && dt2 == dt && y2 < y0 {
                        let q1 = choose|q: (int, int, int)| #[trigger] in_slice_cells(pat, o2, dt2, iox, ioy, imt, q) && q.1 <= y2 + 1;
                        assert(ps.contains(q1));
                        let i1 = choose|i: int| 0 <= i < ps.len() && ps[i] == q1;
                        assert(ps[i1] == pt_int(cells2@[i1]));
                        assert(lo <= cells2@[i1].1);
                    }
                }
                while y0 <= hi
                    invariant
                        o < 8,
                        dt < self.mt,
                        lo - 1 <= y0 <= hi + 1,
                        -0x1000_0000 <= lo <= hi <= 0x1000_0000,
                        pat == *self,
                        ps == pts_int(cells2@),
                        ps.no_duplicates(),
                        ps[wl].1 == lo && ps[wh].1 == hi,
                        0 <= wl < ps.len() && 0 <= wh < ps.len(),
                        forall|q: (int, int, int)| #[trigger] ps.contains(q) <==> in_slice_cells(pat, o as int, dt as int, iox, ioy, imt, q),
                        forall|i: int| 0 <= i < cells2@.len() ==> lo <= (#[trigger] cells2@[i]).1 <= hi,
                        (iox, ioy, imt) == (ox as int, oy as int, mt as int),
                        mt % self.mt == 0,
                        mul == mt / self.mt,
                        mul * self.mt == mt,
                        (ox2 as int, oy2 as int) == oriented_move(pat, o as int),
                        ox2 * mul == iox && oy2 * mul == ioy,
                        acc@.len() >= from,
                        from == a0.len(),
                        acc@.take(from) == a0,
                        all_sound(pat, iox, ioy, imt, acc@, from),
                        slices_traced(pat, iox, ioy, imt, acc@, from, trip),
                        forall|i: int| 0 <= i < trip.len() ==> before3(#[trigger] trip[i], o as int, dt as int, y0 as int),
                        forall|o2: int, dt2: int, y2: int|
                            (o2 < o || (o2 == o && dt2 < dt) || (o2 == o && dt2 == dt && y2 < y0)) && slice_wanted(pat, o2, dt2, iox, ioy, imt, y2)
                                ==> #[trigger] found_at(pat, iox, ioy, imt, acc@, from, trip, o2, dt2, y2),
                    decreases hi + 1 - y0,
                {
                    let r0 = slice_row(&cells2, y0);
                    let r1 = slice_row(&cells2, y0 + 1);
                    let sl = GolSlice { r0: r0, r1: r1, mt: mt };
                    assert(slice_wanted(pat, o as int, dt as int, iox, ioy, imt, y0 as int)) by {
                        assert(ps.contains(ps[wl]) && ps.contains(ps[wh]));
                        assert(in_slice_cells(pat, o as int, dt as int, iox, ioy, imt, ps[wl]));
                        assert(in_slice_cells(pat, o as int, dt as int, iox, ioy, imt, ps[wh]));
                    }
                    assert(slice_of(pat, o as int, dt as int, iox, ioy, imt, y0 as int, sl)) by {
                        assert forall|q: (int, int)| #[trigger] row_int(sl.r0@).contains(q) <==> in_slice_cells(pat, o as int, dt as int, iox, ioy, imt, (q.0, y0 as int, q.1)) by {
                            assert(ps.contains((q.0, y0 as int, q.1)) <==> in_slice_cells(pat, o as int, dt as int, iox, ioy, imt, (q.0, y0 as int, q.1)));
                        }
                        assert forall|q: (int, int)| #[trigger] row_int(sl.r1@).contains(q) <==> in_slice_cells(pat, o as int, dt as int, iox, ioy, imt, (q.0, y0 + 1, q.1)) by {
                            assert(ps.contains((q.0, y0 + 1, q.1)) <==> in_slice_cells(pat, o as int, dt as int, iox, ioy, imt, (q.0, y0 + 1, q.1)));
                        }
                    }
                    let ghost before = acc@;
                    proof {
                        lemma_found_push(pat, iox, ioy, imt, before, from, sl);
                    }
                    let ghost trip_before = trip;
                    acc.push(sl);
                    assert(acc@ =~= before.push(sl));
                    proof {
                        let t0 = trip;
                        trip = trip.push((o as int, dt as int, y0 as int));
                        assert forall|i: int| 0 <= i < trip.len() implies #[trigger] slice_of(
                            pat,
                            trip[i].0,
                            trip[i].1,
                            iox,
                            ioy,
                            imt,
                            trip[i].2,
                            acc@[from + i],
                        ) by {
                            if i < t0.len() {
                                assert(trip[i] == t0[i]);
                                assert(acc@[from + i] == before[from + i]);
                            }
                        }
                        assert forall|i: int, j: int| 0 <= i < j < trip.len() implies before3(
                            #[trigger] trip[i],
                            trip[j].0,
                            trip[j].1,
                            #[trigger] trip[j].2,
                        ) by {
                            assert(trip[i] == t0[i]);
                            if j < t0.len() {
                                assert(trip[j] == t0[j]);
                            }
                        }
                        assert forall|i: int| 0 <= i < trip.len() implies before3(#[trigger] trip[i], o as int, dt as int, y0 + 1) by {
                            if i < t0.len() {
                                assert(trip[i] == t0[i]);
                            }
                        }
                    }
                    assert(acc@.take(from) =~= before.take(from));
                    assert(acc@[before.len() as int] == sl);
                    assert(trip[trip.len() - 1] == (o as int, dt as int, y0 as int));
                    assert(found_at(pat, iox, ioy, imt, acc@, from, trip, o as int, dt as int, y0 as int));
                    assert forall|o2: int, dt2: int, y2: int|
                        (o2 < o || (o2 == o && dt2 < dt) || (o2 == o && dt2 == dt && y2 < y0 + 1)) && slice_wanted(pat, o2, dt2, iox, ioy, imt, y2)
                            implies #[trigger] found_at(pat, iox, ioy, imt, acc@, from, trip, o2, dt2, y2) by {
                        if !(o2 == o && dt2 == dt && y2 == y0) {
                            assert(found_at(pat, iox, ioy, imt, before, from, trip_before, o2, dt2, y2));
                            let w = choose|w: int| 0 <= w < trip_before.len() && trip_before[w] == (o2, dt2, y2);
                            assert(trip[w] == trip_before[w]);
                        }
                    }
                    y0 = y0 + 1;
                }
                assert forall|o2: int, dt2: int, y2: int|
                    (o2 < o || (o2 == o && dt2 < dt + 1)) && slice_wanted(pat, o2, dt2, iox, ioy, imt, y2)
                        implies #[trigger] found_at(pat, iox, ioy, imt, acc@, from, trip, o2, dt2, y2) by {
                    if o2 == o && dt2 == dt {
                        let q1 = choose|q: (int, int, int)| #[trigger] in_slice_cells(pat, o2, dt2, iox, ioy, imt, q) && q.1 <= y2 + 1;
                        let q2 = choose|q: (int, int, int)| #[trigger] in_slice_cells(pat, o2, dt2, iox, ioy, imt, q) && y2 <= q.1;
                        assert(ps.contains(q1) && ps.contains(q2));
                        let i1 = choose|i: int| 0 <= i < ps.len() && ps[i] == q1;
                        let i2 = choose|i: int| 0 <= i < ps.len() && ps[i] == q2;
                        assert(ps[i1] == pt_int(cells2@[i1]) && ps[i2] == pt_int(cells2@[i2]));
                        assert(lo <= cells2@[i1].1 && cells2@[i2].1 <= hi);
                    }
                }
                dt = dt + 1;
            }
            assert forall|o2: int, dt2: int, y2: int|
                o2 < o + 1 && slice_wanted(pat, o2, dt2, iox, ioy, imt, y2) implies #[trigger] found_at(pat, iox, ioy, imt, acc@, from, trip, o2, dt2, y2) by {
                if o2 == o {
                    assert(dt2 < self.mt);
                }
            }
            o = o + 1;
        }
        assert forall|o2: int, dt2: int, y2: int| slice_wanted(pat, o2, dt2, iox, ioy, imt, y2) implies found(
            pat,
            iox,
            ioy,
            imt,
            acc@,
            from,
            o2,
            dt2,
            y2,
        ) && trip.contains((o2, dt2, y2)) by {
            assert(found_at(pat, iox, ioy, imt, acc@, from, trip, o2, dt2, y2));
        }
    }
}

/// `a` comes before `b` in the order of pattern, then orientation, then generation, then row.
pub open spec fn before4(a: (int, int, int, int), b: (int, int, int, int)) -> bool {
    a.0 < b.0 || (a.0 == b.0 && before3((a.1, a.2, a.3), b.1, b.2, b.3))
}

/// The slices `r` are, in turn, the slices of the patterns `ps` at the patterns, orientations,
/// generations and rows `tr`, each coming after the one before: no slice is found twice.
pub open spec fn slices_in_order(
    ps: Seq<GolPattern>,
    ox: int,
    oy: int,
    mt: int,
    r: Seq<GolSlice>,
    tr: Seq<(int, int, int, int)>,
) -> bool {
    &&& tr.len() == r.len()
    &&& forall|i: int|
        0 <= i < tr.len() ==> 0 <= (#[trigger] tr[i]).0 < ps.len() && slice_of(ps[tr[i].0], tr[i].1, tr[i].2, ox, oy, mt, tr[i].3, r[i])
    &&& forall|i: int, j: int| 0 <= i < j < tr.len() ==> before4(#[trigger] tr[i], #[trigger] tr[j])
}

impl GolPatterns {
    /// The slices of every pattern loaded so far, as seen by a search for patterns that move by
    /// `(ox, oy)` every `mt` generations (each pattern taken moving the other way, see
    /// `GolPattern::find_slices`): one slice for each pattern, orientation, generation and row
    /// pair wanted, in that order.
    pub fn find_slices(&self, ox: isize, oy: isize, mt: usize) -> (r: Vec<GolSlice>)
        requires
            self.wf(),
            search_ok(ox as int, oy as int, mt as int),
        ensures
            forall|i: int| 0 <= i < r@.len() ==> #[trigger] sound_in(self.vec@, -ox, -oy, mt as int, r@, i),
            forall|k: int, o: int, dt: int, y0: int|
                0 <= k < self.vec@.len() && slice_wanted(#[trigger] self.vec@[k], o, dt, -ox, -oy, mt as int, y0)
                    ==> #[trigger] found(self.vec@[k], -ox, -oy, mt as int, r@, 0, o, dt, y0),
            exists|tr: Seq<(int, int, int, int)>|
                #[trigger] slices_in_order(self.vec@, -ox, -oy, mt as int, r@, tr) && forall|k: int, o: int, dt: int, y0: int|
                    0 <= k < self.vec@.len() && slice_wanted(self.vec@[k], o, dt, -ox, -oy, mt as int, y0)
                        ==> #[trigger] tr.contains((k, o, dt, y0)),
    {
        let mut acc: Vec<GolSlice> = Vec::new();
        let mut k: usize = 0;
        let ghost mut tr: Seq<(int, int, int, int)> = Seq::empty();
        while k < self.vec.len()
            invariant
                k <= self.vec@.len(),
                self.wf(),
                search_ok(ox as int, oy as int, mt as int),
                forall|i: int| 0 <= i < acc@.len() ==> #[trigger] sound_in(self.vec@.take(k as int), -ox, -oy, mt as int, acc@, i),
                forall|k2: int, o: int, dt: int, y0: int|
                    0 <= k2 < k && slice_wanted(#[trigger] self.vec@[k2], o, dt, -ox, -oy, mt as int, y0)
                        ==> #[trigger] found(self.vec@[k2], -ox, -oy, mt as int, acc@, 0, o, dt, y0),
                slices_in_order(self.vec@, -ox, -oy, mt as int, acc@, tr),
                forall|i: int| 0 <= i < tr.len() ==> (#[trigger] tr[i]).0 < k,
                forall|k2: int, o: int, dt: int, y0: int|
                    0 <= k2 < k && slice_wanted(self.vec@[k2], o, dt, -ox, -oy, mt as int, y0) ==> #[trigger] tr.contains(
                        (k2, o, dt, y0),
                    ),
            decreases self.vec@.len() - k,
        {
            let ghost before = acc@;
            let ghost pk = self.vec@[k as int];
            assert(pattern_ok(pk));
            self.vec[k].find_slices(&mut acc, -ox, -oy, mt);
            proof {
                let from = before.len() as int;
                let trip = choose|trip: Seq<(int, int, int)>|
                    #[trigger] slices_traced(pk, -ox as int, -oy as int, mt as int, acc@, from, trip) && forall|
                        o: int,
                        dt: int,
                        y0: int,
                    | slice_wanted(pk, o, dt, -ox as int, -oy as int, mt as int, y0) ==> #[trigger] trip.contains((o, dt, y0));
                let t0 = tr;
                let ki = k as int;
                tr = t0 + trip.map_values(|t: (int, int, int)| (ki, t.0, t.1, t.2));
                assert forall|i: int| 0 <= i < tr.len() implies 0 <= (#[trigger] tr[i]).0 < self.vec@.len() && slice_of(
                    self.vec@[tr[i].0],
                    tr[i].1,
                    tr[i].2,
                    -ox,
                    -oy,
                    mt as int,
                    tr[i].3,
                    acc@[i],
                ) by {
                    if i < t0.len() {
                        assert(tr[i] == t0[i]);
                        assert(acc@[i] == before[i]) by {
                            assert(acc@.take(from)[i] == before[i]);
                        }
                    } else {
                        let m = i - t0.len();
                        assert(tr[i] == (ki, trip[m].0, trip[m].1, trip[m].2));
                        assert(slice_of(pk, trip[m].0, trip[m].1, -ox as int, -oy as int, mt as int, trip[m].2, acc@[from + m]));
                    }
                }
                assert forall|i: int, j: int| 0 <= i < j < tr.len() implies before4(#[trigger] tr[i], #[trigger] tr[j]) by {
                    if j < t0.len() {
                        assert(tr[i] == t0[i] && tr[j] == t0[j]);
                    } else if i < t0.len() {
                        assert(tr[i] == t0[i]);
                        assert(tr[j].0 == ki);
                    } else {
                        let mi = i - t0.len();
                        let mj = j - t0.len();
                        assert(before3(trip[mi], trip[mj].0, trip[mj].1, trip[mj].2));
                    }
                }
                assert forall|i: int| 0 <= i < tr.len() implies (#[trigger] tr[i]).0 < k + 1 by {
                    if i < t0.len() {
                        assert(tr[i] == t0[i]);
                    }
                }
                assert forall|k2: int, o: int, dt: int, y0: int|
                    0 <= k2 < k + 1 && slice_wanted(self.vec@[k2], o, dt, -ox, -oy, mt as int, y0) implies #[trigger] tr.contains(
                        (k2, o, dt, y0),
                    ) by {
                    if k2 < k {
                        assert(t0.contains((k2, o, dt, y0)));
                        let w = choose|w: int| 0 <= w < t0.len() && t0[w] == (k2, o, dt, y0);
                        assert(tr[w] == t0[w]);
                    } else {
                        assert(self.vec@[k2] == pk);
                        assert(trip.contains((o, dt, y0)));
                        let w = choose|w: int| 0 <= w < trip.len() && trip[w] == (o, dt, y0);
                        assert(tr[t0.len() + w] == (ki, trip[w].0, trip[w].1, trip[w].2));
                    }
                }
            }
            assert forall|i: int| 0 <= i < acc@.len() implies #[trigger] sound_in(self.vec@.take(k + 1), -ox, -oy, mt as int, acc@, i) by {
                let pre = self.vec@.take(k as int);
                let pre1 = self.vec@.take(k + 1);
                if i < before.len() {
                    assert(sound_in(pre, -ox, -oy, mt as int, before, i));
                    let k2 = choose|k2: int| 0 <= k2 < pre.len() && #[trigger] sound_at(pre[k2], -ox, -oy, mt as int, before, i);
                    assert(acc@[i] == before[i]) by {
                        assert(acc@.take(before.len() as int)[i] == before[i]);
                    }
                    let (o, dt, y0) = choose|o: int, dt: int, y0: int| #[trigger] slice_of(pre[k2], o, dt, -ox, -oy, mt as int, y0, before[i]);
                    assert(pre1[k2] == pre[k2]);
                    assert(slice_of(pre1[k2], o, dt, -ox, -oy, mt as int, y0, acc@[i]));
                    assert(sound_at(pre1[k2], -ox, -oy, mt as int, acc@, i));
                } else {
                    assert(sound_at(pk, -ox, -oy, mt as int, acc@, i));
                    assert(pre1[k as int] == pk);
                }
            }
            assert forall|k2: int, o: int, dt: int, y0: int|
                0 <= k2 < k + 1 && slice_wanted(#[trigger] self.vec@[k2], o, dt, -ox, -oy, mt as int, y0)
                    implies #[trigger] found(self.vec@[k2], -ox, -oy, mt as int, acc@, 0, o, dt, y0) by {
                if k2 < k {
                    assert(found(self.vec@[k2], -ox, -oy, mt as int, before, 0, o, dt, y0));
                    let i = choose|i: int| 0 <= i < before.len() && #[trigger] slice_of(self.vec@[k2], o, dt, -ox, -oy, mt as int, y0, before[i]);
                    assert(acc@[i] == before[i]) by {
                        assert(acc@.take(before.len() as int)[i] == before[i]);
                    }
                    assert(slice_of(self.vec@[k2], o, dt, -ox, -oy, mt as int, y0, acc@[i]));
                } else {
                    assert(found(pk, -ox, -oy, mt as int, acc@, before.len() as int, o, dt, y0));
                    let i = choose|i: int| before.len() <= i < acc@.len() && #[trigger] slice_of(pk, o, dt, -ox, -oy, mt as int, y0, acc@[i]);
                }
            }
            k = k + 1;
        }
        assert(self.vec@.take(k as int) =~= self.vec@);
        acc
    }
}

/// `m` is the lowest column among the cells of both rows of `s`.
pub open spec fn is_slice_min(s: GolSlice, m: int) -> bool {
    let a = row_int(s.r0@);
    let b = row_int(s.r1@);
    &&& forall|i: int| 0 <= i < a.len() ==> m <= (#[trigger] a[i]).0
    &&& forall|i: int| 0 <= i < b.len() ==> m <= (#[trigger] b[i]).0
    &&& ((exists|i: int| 0 <= i < a.len() && (#[trigger] a[i]).0 == m) || (exists|i: int| 0 <= i < b.len() && (#[trigger] b[i]).0 == m))
}

/// The bits that the cells `row` set, each cell `(x, t)` at `t * mx + (x - min_x)`.
pub open spec fn row_bit(row: Seq<(int, int)>, mx: int, min_x: int, n: int) -> bool {
    exists|i: int| 0 <= i < row.len() && n == (#[trigger] row[i]).1 * mx + (row[i].0 - min_x)
}

/// Some cell of `row` lies `mx` or more columns right of `min_x`.
pub open spec fn row_too_wide(row: Seq<(int, int)>, mx: int, min_x: int) -> bool {
    exists|i: int| 0 <= i < row.len() && (#[trigger] row[i]).0 - min_x >= mx
}

impl GolSlice {
    /// The two rows as bit masks, each cell `(x, t)` at bit `t * mx + (x - min_x)`, `min_x` the
    /// lowest column of both rows; `None` where some cell lies `mx` or more columns right of
    /// `min_x`.
    pub fn encode<B: UScalar>(&self, mx: usize, mt: usize) -> (r: Option<(B, B)>)
        requires
            self.mt == mt,
            self.r0@.len() + self.r1@.len() > 0,
            mt * mx <= B::spec_size(),
            forall|i: int| 0 <= i < self.r0@.len() ==> (#[trigger] self.r0@[i]).1 < mt,
            forall|i: int| 0 <= i < self.r1@.len() ==> (#[trigger] self.r1@[i]).1 < mt,
        ensures
            forall|m: int| is_slice_min(*self, m) ==> {
                &&& r is None <==> row_too_wide(row_int(self.r0@), mx as int, m) || row_too_wide(row_int(self.r1@), mx as int, m)
                &&& r matches Some((b0, b1)) ==> forall|n: nat| (b0.spec_bit(n) <==> row_bit(row_int(self.r0@), mx as int, m, n as int))
                    && (b1.spec_bit(n) <==> row_bit(row_int(self.r1@), mx as int, m, n as int))
            },
    {
        let ghost a = row_int(self.r0@);
        let ghost b = row_int(self.r1@);
        let mut min_x: isize = if self.r0.len() > 0 {
            self.r0[0].0
        } else {
            self.r1[0].0
        };
        let ghost mut wa: int = if self.r0.len() > 0 { 0 } else { -1 };
        let ghost mut wb: int = if self.r0.len() > 0 { -1 } else { 0 };
        assert(self.r0.len() > 0 ==> a[0].0 == min_x);
        assert(self.r0.len() == 0 ==> b[0].0 == min_x);
        let mut i: usize = 0;
        while i < self.r0.len()
            invariant
                i <= self.r0@.len(),
                a == row_int(self.r0@),
                b == row_int(self.r1@),
                self.r0@.len() + self.r1@.len() > 0,
                (0 <= wa < a.len() && a[wa].0 == min_x) || (0 <= wb < b.len() && b[wb].0 == min_x),
                forall|j: int| 0 <= j < i ==> min_x <= (#[trigger] a[j]).0,
                self.r0@.len() == 0 ==> forall|j: int| 0 <= j < 1 && j < b.len() ==> min_x <= (#[trigger] b[j]).0,
            decreases self.r0@.len() - i,
        {
            if self.r0[i].0 < min_x {
                min_x = self.r0[i].0;
                proof {
                    wa = i as int;
                    wb = -1;
                }
            }
            i = i + 1;
        }
        let mut j: usize = 0;
        while j < self.r1.len()
            invariant
                j <= self.r1@.len(),
                a == row_int(self.r0@),
                b == row_int(self.r1@),
                (0 <= wa < a.len() && a[wa].0 == min_x) || (0 <= wb < b.len() && b[wb].0 == min_x),
                forall|k: int| 0 <= k < a.len() ==> min_x <= (#[trigger] a[k]).0,
                forall|k: int| 0 <= k < j ==> min_x <= (#[trigger] b[k]).0,
            decreases self.r1@.len() - j,
        {
            if self.r1[j].0 < min_x {
                min_x = self.r1[j].0;
                proof {
                    wb = j as int;
                    wa = -1;
                }
            }
            j = j + 1;
        }
        assert(is_slice_min(*self, min_x as int));
        assert forall|m: int| is_slice_min(*self, m) implies m == min_x by {
            if 0 <= wa < a.len() {
                assert(m <= a[wa].0);
            } else {
                assert(m <= b[wb].0);
            }
            if exists|k: int| 0 <= k < a.len() && (#[trigger] a[k]).0 == m {
                let k = choose|k: int| 0 <= k < a.len() && (#[trigger] a[k]).0 == m;
                assert(min_x <= a[k].0);
            } else {
                let k = choose|k: int| 0 <= k < b.len() && (#[trigger] b[k]).0 == m;
                assert(min_x <= b[k].0);
            }
        }
        let ghost m = min_x as int;
        let ghost imx = mx as int;
        let width = B::size();
        assert(mt * mx <= width);
        let mut b0 = B::zero();
        let mut k: usize = 0;
        while k < self.r0.len()
            invariant
                k <= self.r0@.len(),
                a == row_int(self.r0@),
                m == min_x,
                imx == mx,
                mt * mx <= B::spec_size(),
                B::spec_size() == width,
                forall|m2: int| is_slice_min(*self, m2) ==> m2 == min_x,
                forall|i: int| 0 <= i < self.r0@.len() ==> (#[trigger] self.r0@[i]).1 < mt,
                forall|i: int| 0 <= i < a.len() ==> min_x <= (#[trigger] a[i]).0,
                forall|i: int| 0 <= i < k ==> (#[trigger] a[i]).0 - m < imx,
                forall|n: nat| #[trigger] b0.spec_bit(n) <==> row_bit(a.take(k as int), imx, m, n as int),
            decreases self.r0@.len() - k,
        {
            let (x, t) = self.r0[k];
            assert(a[k as int] == (x as int, t as int));
            let d: i128 = (x as i128) - (min_x as i128);
            if d >= mx as i128 {
                assert(row_too_wide(a, imx, m));
                return None;
            }
            let xo = d as usize;
            assert(t * mx + xo < mt * mx && t * mx <= mt * mx) by (nonlinear_arith)
                requires
                    t < mt,
                    xo < mx,
            ;
            let idx = t * mx + xo;
            let ghost prev = b0;
            b0.set_bit(idx, true);
            assert forall|n: nat| #[trigger] b0.spec_bit(n) <==> row_bit(a.take(k + 1), imx, m, n as int) by {
                assert(a.take(k + 1)[k as int] == a[k as int]);
                if row_bit(a.take(k as int), imx, m, n as int) {
                    let i = choose|i: int| 0 <= i < a.take(k as int).len() && n == (#[trigger] a.take(k as int)[i]).1 * imx + (a.take(k as int)[i].0 - m);
                    assert(a.take(k + 1)[i] == a.take(k as int)[i]);
                }
                if row_bit(a.take(k + 1), imx, m, n as int) {
                    let i = choose|i: int| 0 <= i < a.take(k + 1).len() && n == (#[trigger] a.take(k + 1)[i]).1 * imx + (a.take(k + 1)[i].0 - m);
                    if i < k {
                        assert(a.take(k + 1)[i] == a.take(k as int)[i]);
                    }
                }
            }
            k = k + 1;
        }
        assert(a.take(k as int) =~= a);
        let mut b1 = B::zero();
        let mut k: usize = 0;
        while k < self.r1.len()
            invariant
                k <= self.r1@.len(),
                a == row_int(self.r0@),
                b == row_int(self.r1@),
                m == min_x,
                imx == mx,
                mt * mx <= B::spec_size(),
                B::spec_size() == width,
                forall|m2: int| is_slice_min(*self, m2) ==> m2 == min_x,
                forall|i: int| 0 <= i < self.r1@.len() ==> (#[trigger] self.r1@[i]).1 < mt,
                forall|i: int| 0 <= i < b.len() ==> min_x <= (#[trigger] b[i]).0,
                forall|i: int| 0 <= i < a.len() ==> (#[trigger] a[i]).0 - m < imx,
                forall|i: int| 0 <= i < k ==> (#[trigger] b[i]).0 - m < imx,
                forall|n: nat| #[trigger] b0.spec_bit(n) <==> row_bit(a, imx, m, n as int),
                forall|n: nat| #[trigger] b1.spec_bit(n) <==> row_bit(b.take(k as int), imx, m, n as int),
            decreases self.r1@.len() - k,
        {
            let (x, t) = self.r1[k];
            assert(b[k as int] == (x as int, t as int));
            let d: i128 = (x as i128) - (min_x as i128);
            if d >= mx as i128 {
                assert(row_too_wide(b, imx, m));
                return None;
            }
            let xo = d as usize;
            assert(t * mx + xo < mt * mx && t * mx <= mt * mx) by (nonlinear_arith)
                requires
                    t < mt,
                    xo < mx,
            ;
            let idx = t * mx + xo;
            b1.set_bit(idx, true);
            assert forall|n: nat| #[trigger] b1.spec_bit(n) <==> row_bit(b.take(k + 1), imx, m, n as int) by {
                assert(b.take(k + 1)[k as int] == b[k as int]);
                if row_bit(b.take(k as int), imx, m, n as int) {
                    let i = choose|i: int| 0 <= i < b.take(k as int).len() && n == (#[trigger] b.take(k as int)[i]).1 * imx + (b.take(k as int)[i].0 - m);
                    assert(b.take(k + 1)[i] == b.take(k as int)[i]);
                }
                if row_bit(b.take(k + 1), imx, m, n as int) {
                    let i = choose|i: int| 0 <= i < b.take(k + 1).len() && n == (#[trigger] b.take(k + 1)[i]).1 * imx + (b.take(k + 1)[i].0 - m);
                    if i < k {
                        assert(b.take(k + 1)[i] == b.take(k as int)[i]);
                    }
                }
            }
            k = k + 1;
        }
        assert(b.take(k as int) =~= b);
        assert(!row_too_wide(a, imx, m));
        assert(!row_too_wide(b, imx, m));
        Some((b0, b1))
    }
}

/// The cells of `s` in the 3x3 block centred on `p`, as a set.
pub open spec fn block_set(s: Seq<(int, int)>, p: (int, int)) -> Set<(int, int)> {
    s.to_set().filter(|q: (int, int)| adjacent(q, p))
}

proof fn lemma_block_count_is_set(s: Seq<(int, int)>, p: (int, int))
    requires
        s.no_duplicates(),
    ensures
        block_set(s, p).finite(),
        block_count(s, p) == block_set(s, p).len(),
    decreases s.len(),
{
    broadcast use vstd::seq_lib::seq_to_set_is_finite;
    if s.len() == 0 {
        assert(block_set(s, p) =~= Set::empty());
    } else {
        let pre = s.drop_last();
        let x = s.last();
        assert(pre.no_duplicates()) by {
            assert forall|i: int, j: int| 0 <= i < pre.len() && 0 <= j < pre.len() && i != j implies pre[i] != pre[j] by {
                assert(pre[i] == s[i] && pre[j] == s[j]);
            }
        }
        lemma_block_count_is_set(pre, p);
        assert(!pre.to_set().contains(x)) by {
            if pre.to_set().contains(x) {
                let i = choose|i: int| 0 <= i < pre.len() && pre[i] == x;
                assert(s[i] == s[s.len() - 1]);
            }
        }
        assert(s.to_set() =~= pre.to_set().insert(x)) by {
            assert(s =~= pre.push(x));
            assert forall|q: (int, int)| s.to_set().contains(q) <==> pre.to_set().insert(x).contains(q) by {
                if s.to_set().contains(q) {
                    let i = choose|i: int| 0 <= i < s.len() && s[i] == q;
                    if i < pre.len() {
                        assert(pre[i] == q);
                    }
                }
                if pre.to_set().contains(q) {
                    let i = choose|i: int| 0 <= i < pre.len() && pre[i] == q;
                    assert(s[i] == q);
                }
                if q == x {
                    assert(s[s.len() - 1] == q);
                }
            }
        }
        if adjacent(x, p) {
            assert(block_set(s, p) =~= block_set(pre, p).insert(x));
        } else {
            assert(block_set(s, p) =~= block_set(pre, p));
        }
    }
}

/// The Life rule depends only on which cells are alive: two lists holding the same cells, each
/// once, give the same next generation.
pub proof fn lemma_life_next_set(s1: Seq<(int, int)>, s2: Seq<(int, int)>, p: (int, int))
    requires
        s1.no_duplicates(),
        s2.no_duplicates(),
        same_set(s1, s2),
    ensures
        block_count(s1, p) == block_count(s2, p),
        life_next(s1, p) == life_next(s2, p),
{
    lemma_block_count_is_set(s1, p);
    lemma_block_count_is_set(s2, p);
    assert(s1.to_set() =~= s2.to_set()) by {
        assert forall|q: (int, int)| s1.to_set().contains(q) <==> s2.to_set().contains(q) by {
            assert(s1.contains(q) <==> s2.contains(q));
        }
    }
    assert(block_set(s1, p) =~= block_set(s2, p));
}

/// Two histories of Life from the same cells hold the same cells in every generation that both
/// reach.
pub proof fn lemma_history_unique(h1: Seq<Seq<(int, int)>>, h2: Seq<Seq<(int, int)>>, t: int)
    requires
        life_history(h1),
        life_history(h2),
        same_set(h1[0], h2[0]),
        0 <= t < h1.len(),
        t < h2.len(),
    ensures
        same_set(h1[t], h2[t]),
        h1[t].no_duplicates(),
        h2[t].no_duplicates(),
    decreases t,
{
    if t > 0 {
        lemma_history_unique(h1, h2, t - 1);
        assert(gen_follows(h1, t - 1));
        assert(gen_follows(h2, t - 1));
        assert forall|p: (int, int)| h1[t].contains(p) <==> h2[t].contains(p) by {
            lemma_life_next_set(h1[t - 1], h2[t - 1], p);
        }
    }
}

proof fn lemma_same_set_transfer(a: Seq<(int, int)>, b: Seq<(int, int)>, ox: int, oy: int)
    requires
        same_set(a, b),
    ensures
        a.len() > 0 ==> b.len() > 0,
        is_min_x(a, ox) ==> is_min_x(b, ox),
        is_min_y(a, oy) ==> is_min_y(b, oy),
        forall|q: (int, int)| #[trigger] shifted(a, -ox, -oy).contains(q) <==> shifted(b, -ox, -oy).contains(q),
{
    if a.len() > 0 {
        assert(a.contains(a[0]));
    }
    if is_min_x(a, ox) {
        assert forall|i: int| 0 <= i < b.len() implies ox <= (#[trigger] b[i]).0 by {
            assert(b.contains(b[i]));
            let j = choose|j: int| 0 <= j < a.len() && a[j] == b[i];
        }
        let j = choose|j: int| 0 <= j < a.len() && (#[trigger] a[j]).0 == ox;
        assert(a.contains(a[j]));
    }
    if is_min_y(a, oy) {
        assert forall|i: int| 0 <= i < b.len() implies oy <= (#[trigger] b[i]).1 by {
            assert(b.contains(b[i]));
            let j = choose|j: int| 0 <= j < a.len() && a[j] == b[i];
        }
        let j = choose|j: int| 0 <= j < a.len() && (#[trigger] a[j]).1 == oy;
        assert(a.contains(a[j]));
    }
    assert forall|q: (int, int)| #[trigger] shifted(a, -ox, -oy).contains(q) implies shifted(b, -ox, -oy).contains(q) by {
        let i = choose|i: int| 0 <= i < a.len() && #[trigger] shifted(a, -ox, -oy)[i] == q;
        assert(a.contains(a[i]));
        let j = choose|j: int| 0 <= j < b.len() && b[j] == a[i];
        assert(shifted(b, -ox, -oy)[j] == q);
    }
    assert forall|q: (int, int)| #[trigger] shifted(b, -ox, -oy).contains(q) implies shifted(a, -ox, -oy).contains(q) by {
        let i = choose|i: int| 0 <= i < b.len() && #[trigger] shifted(b, -ox, -oy)[i] == q;
        assert(b.contains(b[i]));
        let j = choose|j: int| 0 <= j < a.len() && a[j] == b[i];
        assert(shifted(a, -ox, -oy)[j] == q);
    }
}

proof fn lemma_recurs_transfer(h1: Seq<Seq<(int, int)>>, h2: Seq<Seq<(int, int)>>, t: int, ox: int, oy: int)
    requires
        0 <= t < h1.len(),
        t < h2.len(),
        h1.len() >= 1,
        h2.len() >= 1,
        same_set(h1[t], h2[t]),
        same_set(h1[0], h2[0]),
        recurs(h1, t, ox, oy),
    ensures
        recurs(h2, t, ox, oy),
{
    lemma_same_set_transfer(h1[t], h2[t], ox, oy);
}

proof fn lemma_recurs_at_transfer(h1: Seq<Seq<(int, int)>>, h2: Seq<Seq<(int, int)>>, t: int)
    requires
        0 <= t < h1.len(),
        t < h2.len(),
        same_set(h1[t], h2[t]),
        same_set(h1[0], h2[0]),
    ensures
        recurs_at(h1, t) == recurs_at(h2, t),
        h1[t].len() > 0 <==> h2[t].len() > 0,
{
    lemma_same_set_transfer(h1[t], h2[t], 0, 0);
    lemma_same_set_transfer(h2[t], h1[t], 0, 0);
    if recurs_at(h1, t) {
        let (ox, oy) = choose|ox: int, oy: int| recurs(h1, t, ox, oy);
        lemma_recurs_transfer(h1, h2, t, ox, oy);
    }
    if recurs_at(h2, t) {
        let (ox, oy) = choose|ox: int, oy: int| recurs(h2, t, ox, oy);
        lemma_recurs_transfer(h2, h1, t, ox, oy);
    }
}

proof fn lemma_step_link_transfer(s1: Seq<(int, int)>, s2: Seq<(int, int)>, a: (int, int, int), b: (int, int, int))
    requires
        s1.no_duplicates(),
        s2.no_duplicates(),
        same_set(s1, s2),
    ensures
        step_link(s1, a, b) == step_link(s2, a, b),
{
    lemma_life_next_set(s1, s2, xy(a));
}

proof fn lemma_hist_link_transfer(
    h1: Seq<Seq<(int, int)>>,
    h2: Seq<Seq<(int, int)>>,
    mt: int,
    ox: int,
    oy: int,
    a: (int, int, int),
    b: (int, int, int),
)
    requires
        mt < h1.len(),
        mt < h2.len(),
        forall|t: int| 0 <= t < mt ==> same_set(#[trigger] h1[t], h2[t]) && h1[t].no_duplicates() && h2[t].no_duplicates(),
        hist_link(h1, mt, ox, oy, a, b),
    ensures
        hist_link(h2, mt, ox, oy, a, b),
{
    let (t, a0, b0) = choose|t: int, a0: (int, int, int), b0: (int, int, int)|
        0 <= t < mt && #[trigger] step_link(h1[t], a0, b0) && a == hist_pt(t, mt, ox, oy, a0) && b == hist_pt(t, mt, ox, oy, b0);
    lemma_step_link_transfer(h1[t], h2[t], a0, b0);
}

/// What `evolve` returns is pinned by its contract: two outcomes that both meet `evolved` for
/// the same cells are both nothing, or both a repeat after the same number of generations and
/// the same move, with the same cells and the same links.
pub proof fn lemma_evolved_unique(
    c0: Seq<(int, int)>,
    r1: Option<(Vec<Pt3>, Vec<(Pt3, Pt3)>, isize, isize, usize)>,
    r2: Option<(Vec<Pt3>, Vec<(Pt3, Pt3)>, isize, isize, usize)>,
)
    requires
        evolved(c0, r1),
        evolved(c0, r2),
    ensures
        r1 is Some <==> r2 is Some,
        r1 is Some ==> {
            let (v1, v2) = (r1.unwrap(), r2.unwrap());
            &&& v1.2 == v2.2
            &&& v1.3 == v2.3
            &&& v1.4 == v2.4
            &&& forall|p: Pt3| v1.0@.contains(p) <==> v2.0@.contains(p)
            &&& forall|l: ((int, int, int), (int, int, int))| links_int(v1.1@).contains(l) <==> links_int(v2.1@).contains(l)
        },
{
    match (r1, r2) {
        (Some(v1), Some(v2)) => {
            let h1 = choose|h: Seq<Seq<(int, int)>>| #[trigger] cycle_found(c0, h, v1);
            let h2 = choose|h: Seq<Seq<(int, int)>>| #[trigger] cycle_found(c0, h, v2);
            let (mt1, mt2) = (v1.4 as int, v2.4 as int);
            assert(same_set(h1[0], h2[0]));
            if mt1 < mt2 {
                lemma_history_unique(h1, h2, mt1);
                lemma_recurs_at_transfer(h1, h2, mt1);
                assert(quiet_gen(h2, mt1));
                assert(recurs_at(h1, mt1));
            }
            if mt2 < mt1 {
                lemma_history_unique(h1, h2, mt2);
                lemma_recurs_at_transfer(h1, h2, mt2);
                assert(quiet_gen(h1, mt2));
                assert(recurs_at(h2, mt2));
            }
            let mt = mt1;
            assert forall|t: int| 0 <= t <= mt implies same_set(#[trigger] h1[t], h2[t]) && h1[t].no_duplicates() && h2[t].no_duplicates() by {
                lemma_history_unique(h1, h2, t);
            }
            assert(same_set(h1[mt], h2[mt]));
            lemma_same_set_transfer(h1[mt], h2[mt], v1.2 as int, v1.3 as int);
            lemma_min_unique(h2[mt], v1.2 as int, v2.2 as int);
            lemma_min_unique(h2[mt], v1.3 as int, v2.3 as int);
            assert forall|p: Pt3| v1.0@.contains(p) <==> v2.0@.contains(p) by {
                if p.2 < mt {
                    assert(same_set(h1[p.2 as int], h2[p.2 as int]));
                }
            }
            assert forall|l: ((int, int, int), (int, int, int))| links_int(v1.1@).contains(l) <==> links_int(v2.1@).contains(l) by {
                if links_int(v1.1@).contains(l) {
                    let i = choose|i: int| 0 <= i < links_int(v1.1@).len() && links_int(v1.1@)[i] == l;
                    assert(hist_link(h1, mt, v1.2 as int, v1.3 as int, pt_int(v1.1@[i].0), pt_int(v1.1@[i].1)));
                    lemma_hist_link_transfer(h1, h2, mt, v1.2 as int, v1.3 as int, l.0, l.1);
                }
                if links_int(v2.1@).contains(l) {
                    let i = choose|i: int| 0 <= i < links_int(v2.1@).len() && links_int(v2.1@)[i] == l;
                    assert(hist_link(h2, mt, v2.2 as int, v2.3 as int, pt_int(v2.1@[i].0), pt_int(v2.1@[i].1)));
                    assert forall|t: int| 0 <= t < mt implies same_set(#[trigger] h2[t], h1[t]) && h2[t].no_duplicates() && h1[t].no_duplicates() by {
                        lemma_history_unique(h1, h2, t);
                    }
                    lemma_hist_link_transfer(h2, h1, mt, v2.2 as int, v2.3 as int, l.0, l.1);
                }
            }
        },
        (Some(v1), None) => {
            let h1 = choose|h: Seq<Seq<(int, int)>>| #[trigger] cycle_found(c0, h, v1);
            let h2 = choose|h: Seq<Seq<(int, int)>>| #[trigger] no_cycle(c0, h);
            lemma_cycle_not_quiet(c0, h1, v1, h2);
        },
        (None, Some(v2)) => {
            let h1 = choose|h: Seq<Seq<(int, int)>>| #[trigger] no_cycle(c0, h);
            let h2 = choose|h: Seq<Seq<(int, int)>>| #[trigger] cycle_found(c0, h, v2);
            lemma_cycle_not_quiet(c0, h2, v2, h1);
        },
        (None, None) => {},
    }
}

proof fn lemma_cycle_not_quiet(
    c0: Seq<(int, int)>,
    h1: Seq<Seq<(int, int)>>,
    v: (Vec<Pt3>, Vec<(Pt3, Pt3)>, isize, isize, usize),
    h2: Seq<Seq<(int, int)>>,
)
    ensures
        !(cycle_found(c0, h1, v) && no_cycle(c0, h2)),
{
    if !(cycle_found(c0, h1, v) && no_cycle(c0, h2)) {
        return;
    }
    let mt = v.4 as int;
    let l = h2.len() - 1;
    assert(same_set(h1[0], h2[0]));
    if l > mt {
        lemma_history_unique(h1, h2, mt);
        lemma_recurs_at_transfer(h1, h2, mt);
        assert(quiet_gen(h2, mt));
        assert(recurs_at(h1, mt));
    } else {
        lemma_history_unique(h1, h2, l);
        lemma_recurs_at_transfer(h1, h2, l);
        if h2.last().len() == 0 {
            if l < mt {
                assert(quiet_gen(h1, l));
            } else {
                assert(h1[mt].len() > 0);
            }
        } else {
            assert(h2.len() == 101);
            if l < mt {
                assert(quiet_gen(h1, l));
            } else {
                assert(recurs_at(h1, mt));
            }
        }
    }
}

} // verus!

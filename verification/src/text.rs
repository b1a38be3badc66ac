//! Text as sequences of characters: what a trimmed, lowered, split or joined
//! string is, and the executable forms that produce exactly that.
use vstd::prelude::*;

verus! {

/// Unicode's White_Space property: what `char::is_whitespace` answers for,
/// and so what `str::trim` takes off either end.
pub open spec fn is_white(c: char) -> bool {
    ||| ('\t' <= c && c <= '\r')
    ||| c == ' '
    ||| c == '\u{85}'
    ||| c == '\u{A0}'
    ||| c == '\u{1680}'
    ||| ('\u{2000}' <= c && c <= '\u{200A}')
    ||| c == '\u{2028}'
    ||| c == '\u{2029}'
    ||| c == '\u{202F}'
    ||| c == '\u{205F}'
    ||| c == '\u{3000}'
}

pub fn white(c: char) -> (r: bool)
    ensures
        r == is_white(c),
{
    ('\t' <= c && c <= '\r') || c == ' ' || c == '\u{85}' || c == '\u{A0}' || c == '\u{1680}'
        || ('\u{2000}' <= c && c <= '\u{200A}') || c == '\u{2028}' || c == '\u{2029}' || c
        == '\u{202F}' || c == '\u{205F}' || c == '\u{3000}'
}

/// `s` with its leading white space taken off.
pub open spec fn trim_start(s: Seq<char>) -> Seq<char>
    decreases s.len(),
{
    if s.len() > 0 && is_white(s[0]) {
        trim_start(s.drop_first())
    } else {
        s
    }
}

/// `s` with its trailing white space taken off.
pub open spec fn trim_end(s: Seq<char>) -> Seq<char>
    decreases s.len(),
{
    if s.len() > 0 && is_white(s.last()) {
        trim_end(s.drop_last())
    } else {
        s
    }
}

/// What `str::trim` leaves.
pub open spec fn trim(s: Seq<char>) -> Seq<char> {
    trim_end(trim_start(s))
}

pub open spec fn lower_char(c: char) -> char {
    if 'A' <= c && c <= 'Z' {
        ((c as u32) + 32) as char
    } else {
        c
    }
}

/// What `to_ascii_lowercase` leaves: ASCII capitals lowered, all else kept.
pub open spec fn lower(s: Seq<char>) -> Seq<char> {
    s.map_values(|c: char| lower_char(c))
}

/// The pieces of `s` between occurrences of `sep`, as `str::split` yields
/// them: always at least one, empty ones included.
pub open spec fn split(s: Seq<char>, sep: char) -> Seq<Seq<char>>
    decreases s.len(),
{
    if s.len() == 0 {
        seq![Seq::<char>::empty()]
    } else {
        let before = split(s.drop_last(), sep);
        if s.last() == sep {
            before.push(Seq::<char>::empty())
        } else {
            before.update(before.len() - 1, before.last().push(s.last()))
        }
    }
}

/// The pieces joined, with `sep` between each two.
pub open spec fn join(pieces: Seq<Seq<char>>, sep: Seq<char>) -> Seq<char>
    decreases pieces.len(),
{
    if pieces.len() == 0 {
        Seq::<char>::empty()
    } else if pieces.len() == 1 {
        pieces[0]
    } else {
        join(pieces.drop_last(), sep) + sep + pieces.last()
    }
}

pub open spec fn digit(d: nat) -> char {
    (('0' as u32) + d) as char
}

/// A number in decimal, as `format!("{n}")` writes it.
pub open spec fn decimal(n: nat) -> Seq<char>
    decreases n,
{
    if n < 10 {
        seq![digit(n)]
    } else {
        decimal(n / 10).push(digit(n % 10))
    }
}

/// The characters of a string, in order.
pub fn chars_of(s: &str) -> (r: Vec<char>)
    ensures
        r@ == s@,
{
    let mut out: Vec<char> = Vec::new();
    for c in it: s.chars()
        invariant
            out@ == it.seq().take(it.index() as int),
            it.seq() == s@,
    {
        out.push(c);
    }
    out
}

/// A `String` holding exactly these characters: std's `String: FromIterator`
/// (`collect`), which appends each character in turn.
#[verifier::external_body]
pub(crate) fn string_of(chars: &Vec<char>) -> (r: String)
    ensures
        r@ == chars@,
{
    chars.iter().collect()
}

/// The characters `lo..hi` of `v`.
pub fn slice_of(v: &Vec<char>, lo: usize, hi: usize) -> (r: Vec<char>)
    requires
        lo <= hi <= v.len(),
    ensures
        r@ == v@.subrange(lo as int, hi as int),
{
    let mut out: Vec<char> = Vec::new();
    let mut i = lo;
    while i < hi
        invariant
            lo <= i <= hi <= v.len(),
            out@ == v@.subrange(lo as int, i as int),
        decreases hi - i,
    {
        out.push(v[i]);
        i = i + 1;
    }
    out
}

/// `a` followed by `b`.
pub fn concat(a: &Vec<char>, b: &Vec<char>) -> (r: Vec<char>)
    ensures
        r@ == a@ + b@,
{
    let mut out: Vec<char> = Vec::new();
    let mut i: usize = 0;
    while i < a.len()
        invariant
            i <= a.len(),
            out@ == a@.take(i as int),
        decreases a.len() - i,
    {
        out.push(a[i]);
        i = i + 1;
    }
    let mut j: usize = 0;
    while j < b.len()
        invariant
            j <= b.len(),
            out@ == a@ + b@.take(j as int),
        decreases b.len() - j,
    {
        out.push(b[j]);
        j = j + 1;
    }
    assert(a@.take(a.len() as int) == a@);
    assert(b@.take(b.len() as int) == b@);
    out
}

pub proof fn lemma_trim_start_at(s: Seq<char>, i: int)
    requires
        0 <= i <= s.len(),
        forall|k: int| 0 <= k < i ==> is_white(#[trigger] s[k]),
        i == s.len() || !is_white(s[i]),
    ensures
        trim_start(s) == s.subrange(i, s.len() as int),
    decreases i,
{
    if i == 0 {
        assert(s.subrange(0, s.len() as int) == s);
    } else {
        assert(is_white(s[0]));
        let t = s.drop_first();
        assert forall|k: int| 0 <= k < i - 1 implies is_white(#[trigger] t[k]) by {
            assert(t[k] == s[k + 1]);
        }
        if i < s.len() {
            assert(t[i - 1] == s[i]);
        }
        lemma_trim_start_at(t, i - 1);
        assert(t.subrange(i - 1, t.len() as int) == s.subrange(i, s.len() as int));
    }
}

pub proof fn lemma_trim_end_at(s: Seq<char>, j: int)
    requires
        0 <= j <= s.len(),
        forall|k: int| j <= k < s.len() ==> is_white(#[trigger] s[k]),
        j == 0 || !is_white(s[j - 1]),
    ensures
        trim_end(s) == s.subrange(0, j),
    decreases s.len() - j,
{
    if j == s.len() {
        assert(s.subrange(0, j) == s);
    } else {
        assert(is_white(s.last()));
        let t = s.drop_last();
        assert forall|k: int| j <= k < t.len() implies is_white(#[trigger] t[k]) by {
            assert(t[k] == s[k]);
        }
        if j > 0 {
            assert(t[j - 1] == s[j - 1]);
        }
        lemma_trim_end_at(t, j);
        assert(t.subrange(0, j) == s.subrange(0, j));
    }
}

/// `str::trim`, on characters.
pub fn trimmed(v: &Vec<char>) -> (r: Vec<char>)
    ensures
        r@ == trim(v@),
{
    let mut i: usize = 0;
    while i < v.len() && white(v[i])
        invariant
            i <= v.len(),
            forall|k: int| 0 <= k < i ==> is_white(#[trigger] v@[k]),
        decreases v.len() - i,
    {
        i = i + 1;
    }
    proof {
        lemma_trim_start_at(v@, i as int);
    }
    let mut j: usize = v.len();
    while j > i && white(v[j - 1])
        invariant
            i <= j <= v.len(),
            forall|k: int| j <= k < v.len() ==> is_white(#[trigger] v@[k]),
        decreases j,
    {
        j = j - 1;
    }
    let ghost t = v@.subrange(i as int, v.len() as int);
    proof {
        assert forall|k: int| j - i <= k < t.len() implies is_white(#[trigger] t[k]) by {
            assert(t[k] == v@[k + i]);
        }
        if j > i {
            assert(t[j - i - 1] == v@[j - 1]);
        }
        lemma_trim_end_at(t, (j - i) as int);
        assert(t.subrange(0, (j - i) as int) == v@.subrange(i as int, j as int));
    }
    slice_of(v, i, j)
}

pub fn lower_one(c: char) -> (r: char)
    ensures
        r == lower_char(c),
{
    if 'A' <= c && c <= 'Z' {
        let b: u8 = (c as u32) as u8;
        ((b + 32) as char)
    } else {
        c
    }
}

/// `to_ascii_lowercase`, on characters.
pub fn lowered(v: &Vec<char>) -> (r: Vec<char>)
    ensures
        r@ == lower(v@),
{
    let mut out: Vec<char> = Vec::new();
    let mut i: usize = 0;
    while i < v.len()
        invariant
            i <= v.len(),
            out@ == lower(v@.take(i as int)),
        decreases v.len() - i,
    {
        out.push(lower_one(v[i]));
        i = i + 1;
        assert(lower(v@.take(i as int)) == lower(v@.take(i - 1)).push(lower_char(v@[i - 1])));
    }
    assert(v@.take(v.len() as int) == v@);
    out
}

/// Whether two character sequences are the same.
pub fn same(a: &Vec<char>, b: &Vec<char>) -> (r: bool)
    ensures
        r == (a@ == b@),
{
    if a.len() != b.len() {
        return false;
    }
    let mut i: usize = 0;
    while i < a.len()
        invariant
            i <= a.len() == b.len(),
            forall|k: int| 0 <= k < i ==> a@[k] == b@[k],
        decreases a.len() - i,
    {
        if a[i] != b[i] {
            return false;
        }
        i = i + 1;
    }
    assert(a@ =~= b@);
    true
}

/// Whether `list` holds `item`.
pub fn holds(list: &Vec<Vec<char>>, item: &Vec<char>) -> (r: bool)
    ensures
        r == list@.map_values(|v: Vec<char>| v@).contains(item@),
{
    let ghost views = list@.map_values(|v: Vec<char>| v@);
    let mut i: usize = 0;
    while i < list.len()
        invariant
            i <= list.len(),
            views == list@.map_values(|v: Vec<char>| v@),
            forall|k: int| 0 <= k < i ==> views[k] != item@,
        decreases list.len() - i,
    {
        if same(&list[i], item) {
            assert(views[i as int] == item@);
            return true;
        }
        i = i + 1;
    }
    false
}

/// `n` in decimal (`format!("{n}")`).
pub fn decimal_of(n: u64) -> (r: Vec<char>)
    ensures
        r@ == decimal(n as nat),
    decreases n,
{
    if n < 10 {
        let mut out: Vec<char> = Vec::new();
        out.push(digit_of(n));
        out
    } else {
        let mut out = decimal_of(n / 10);
        out.push(digit_of(n % 10));
        out
    }
}

fn digit_of(d: u64) -> (r: char)
    requires
        d < 10,
    ensures
        r == digit(d as nat),
{
    if d == 0 { '0' }
    else if d == 1 { '1' }
    else if d == 2 { '2' }
    else if d == 3 { '3' }
    else if d == 4 { '4' }
    else if d == 5 { '5' }
    else if d == 6 { '6' }
    else if d == 7 { '7' }
    else if d == 8 { '8' }
    else { '9' }
}

/// `str::split` on characters.
pub fn split_on(v: &Vec<char>, sep: char) -> (r: Vec<Vec<char>>)
    ensures
        r@.map_values(|p: Vec<char>| p@) == split(v@, sep),
{
    let mut pieces: Vec<Vec<char>> = Vec::new();
    let mut cur: Vec<char> = Vec::new();
    let mut i: usize = 0;
    while i < v.len()
        invariant
            i <= v.len(),
            pieces@.map_values(|p: Vec<char>| p@).push(cur@) == split(v@.take(i as int), sep),
        decreases v.len() - i,
    {
        let c = v[i];
        let ghost before = pieces@.map_values(|p: Vec<char>| p@).push(cur@);
        assert(v@.take(i + 1).drop_last() == v@.take(i as int));
        if c == sep {
            let done = cur;
            pieces.push(done);
            cur = Vec::new();
            assert(pieces@.map_values(|p: Vec<char>| p@) == before);
        } else {
            cur.push(c);
            assert(pieces@.map_values(|p: Vec<char>| p@).push(cur@) =~= before.update(
                before.len() - 1,
                before.last().push(c),
            ));
        }
        i = i + 1;
    }
    assert(v@.take(v.len() as int) == v@);
    pieces.push(cur);
    pieces
}

/// Leading white space goes, and nothing else.
pub proof fn lemma_trim_start_after_white(w: Seq<char>, x: Seq<char>)
    requires
        forall|i: int| 0 <= i < w.len() ==> is_white(#[trigger] w[i]),
        x.len() == 0 || !is_white(x[0]),
    ensures
        trim_start(w + x) == x,
{
    let s = w + x;
    assert forall|k: int| 0 <= k < w.len() implies is_white(#[trigger] s[k]) by {
        assert(s[k] == w[k]);
    }
    if x.len() > 0 {
        assert(s[w.len() as int] == x[0]);
    }
    lemma_trim_start_at(s, w.len() as int);
    assert(s.subrange(w.len() as int, s.len() as int) == x);
}

/// Trailing white space goes, and nothing else.
pub proof fn lemma_trim_end_before_white(x: Seq<char>, w: Seq<char>)
    requires
        forall|i: int| 0 <= i < w.len() ==> is_white(#[trigger] w[i]),
        x.len() == 0 || !is_white(x.last()),
    ensures
        trim_end(x + w) == x,
{
    let s = x + w;
    assert forall|k: int| x.len() <= k < s.len() implies is_white(#[trigger] s[k]) by {
        assert(s[k] == w[k - x.len()]);
    }
    if x.len() > 0 {
        assert(s[x.len() - 1] == x.last());
    }
    lemma_trim_end_at(s, x.len() as int);
    assert(s.subrange(0, x.len() as int) == x);
}

/// Text that starts and ends with something other than white space, with
/// white space around it, trims to itself.
pub proof fn lemma_trim_around(w1: Seq<char>, x: Seq<char>, w2: Seq<char>)
    requires
        forall|i: int| 0 <= i < w1.len() ==> is_white(#[trigger] w1[i]),
        forall|i: int| 0 <= i < w2.len() ==> is_white(#[trigger] w2[i]),
        x.len() > 0,
        !is_white(x[0]),
        !is_white(x.last()),
    ensures
        trim(w1 + x + w2) == x,
{
    assert(w1 + x + w2 == w1 + (x + w2));
    assert((x + w2)[0] == x[0]);
    lemma_trim_start_after_white(w1, x + w2);
    lemma_trim_end_before_white(x, w2);
}

pub open spec fn free_of(s: Seq<char>, c: char) -> bool {
    forall|i: int| 0 <= i < s.len() ==> s[i] != c
}

/// Text with no separator in it, after more text: it lengthens the last
/// piece.
pub proof fn lemma_split_append(a: Seq<char>, t: Seq<char>, sep: char)
    requires
        free_of(t, sep),
    ensures
        split(a + t, sep) == split(a, sep).update(
            split(a, sep).len() - 1,
            split(a, sep).last() + t,
        ),
        split(a, sep).len() >= 1,
    decreases t.len(),
{
    lemma_split_len(a, sep);
    if t.len() == 0 {
        assert(a + t == a);
        assert(split(a, sep).last() + t == split(a, sep).last());
        assert(split(a, sep).update(split(a, sep).len() - 1, split(a, sep).last()) == split(a, sep));
    } else {
        let t0 = t.drop_last();
        assert(free_of(t0, sep));
        lemma_split_append(a, t0, sep);
        let s = a + t;
        assert(s.drop_last() == a + t0);
        assert(s.last() == t.last());
        lemma_split_len(a + t0, sep);
        let l = split(a, sep).len() - 1;
        let b1 = split(a + t0, sep);
        assert(b1.len() == split(a, sep).len());
        assert(b1.last() == split(a, sep).last() + t0);
        assert(t.last() == t[t.len() - 1]);
        assert(t.last() != sep);
        assert(split(s, sep) == b1.update(b1.len() - 1, b1.last().push(s.last())));
        assert((split(a, sep).last() + t0).push(t.last()) =~= split(a, sep).last() + t);
        assert(split(s, sep) =~= split(a, sep).update(l, split(a, sep).last() + t));
    }
}

pub proof fn lemma_split_len(s: Seq<char>, sep: char)
    ensures
        split(s, sep).len() >= 1,
    decreases s.len(),
{
    if s.len() > 0 {
        lemma_split_len(s.drop_last(), sep);
    }
}

/// Pieces with no separator in them, joined by it, split back into the
/// same pieces.
pub proof fn lemma_split_join(ps: Seq<Seq<char>>, sep: char)
    requires
        ps.len() >= 1,
        forall|i: int| 0 <= i < ps.len() ==> free_of(#[trigger] ps[i], sep),
    ensures
        split(join(ps, seq![sep]), sep) == ps,
    decreases ps.len(),
{
    if ps.len() == 1 {
        assert(free_of(ps[0], sep));
        lemma_split_append(Seq::<char>::empty(), ps[0], sep);
        assert(Seq::<char>::empty() + ps[0] == ps[0]);
        assert(Seq::<char>::empty() + ps[0] == ps[0]);
        assert(split(Seq::<char>::empty(), sep) == seq![Seq::<char>::empty()]);
        assert(split(ps[0], sep) =~= ps);
    } else {
        let front = ps.drop_last();
        assert forall|i: int| 0 <= i < front.len() implies free_of(#[trigger] front[i], sep) by {
            assert(front[i] == ps[i]);
        }
        lemma_split_join(front, sep);
        let j = join(front, seq![sep]);
        let with = j + seq![sep];
        assert(with.drop_last() == j);
        assert(split(with, sep) == split(j, sep).push(Seq::<char>::empty()));
        assert(free_of(ps.last(), sep));
        lemma_split_append(with, ps.last(), sep);
        assert(join(ps, seq![sep]) == with + ps.last());
        assert(Seq::<char>::empty() + ps.last() == ps.last());
        assert(split(join(ps, seq![sep]), sep) =~= front.push(ps.last()));
        assert(front.push(ps.last()) == ps);
    }
}

/// Every character of a join is the separator or a character of a piece.
pub proof fn lemma_join_chars(ps: Seq<Seq<char>>, sep: char, k: int)
    requires
        0 <= k < join(ps, seq![sep]).len(),
    ensures
        join(ps, seq![sep])[k] == sep || exists|i: int, j: int|
            0 <= i < ps.len() && 0 <= j < ps[i].len() && #[trigger] ps[i][j] == join(ps, seq![sep])[k],
    decreases ps.len(),
{
    if ps.len() == 1 {
        assert(ps[0][k] == join(ps, seq![sep])[k]);
    } else if ps.len() > 1 {
        let front = ps.drop_last();
        let j = join(front, seq![sep]);
        let whole = join(ps, seq![sep]);
        assert(whole == j + seq![sep] + ps.last());
        if k < j.len() {
            lemma_join_chars(front, sep, k);
            assert(whole[k] == j[k]);
            if j[k] != sep {
                let (i, q) = choose|i: int, q: int|
                    0 <= i < front.len() && 0 <= q < front[i].len() && #[trigger] front[i][q] == j[k];
                assert(ps[i][q] == front[i][q]);
            }
        } else if k == j.len() {
        } else {
            let q = k - j.len() - 1;
            assert(whole[k] == ps.last()[q]);
            assert(ps[ps.len() - 1][q] == whole[k]);
        }
    }
}

/// The last character of a join is the last of the last piece.
pub proof fn lemma_join_last(ps: Seq<Seq<char>>, sep: Seq<char>)
    requires
        ps.len() >= 1,
        ps.last().len() > 0,
    ensures
        join(ps, sep).len() > 0,
        join(ps, sep).last() == ps.last().last(),
{
    if ps.len() > 1 {
        assert(join(ps, sep) == join(ps.drop_last(), sep) + sep + ps.last());
    }
}

/// Every character of a text is the separator or a character of a piece
/// of its split.
pub proof fn lemma_split_chars(s: Seq<char>, sep: char, k: int)
    requires
        0 <= k < s.len(),
    ensures
        s[k] == sep || exists|i: int, j: int|
            0 <= i < split(s, sep).len() && 0 <= j < split(s, sep)[i].len()
                && #[trigger] split(s, sep)[i][j] == s[k],
    decreases s.len(),
{
    let before = split(s.drop_last(), sep);
    lemma_split_len(s.drop_last(), sep);
    if k < s.len() - 1 {
        lemma_split_chars(s.drop_last(), sep, k);
        assert(s[k] == s.drop_last()[k]);
        if s[k] != sep {
            let (i, j) = choose|i: int, j: int|
                0 <= i < before.len() && 0 <= j < before[i].len() && #[trigger] before[i][j] == s.drop_last()[k];
            if s.last() == sep {
                assert(split(s, sep)[i] == before[i]);
            } else if i < before.len() - 1 {
                assert(split(s, sep)[i] == before[i]);
            } else {
                assert(split(s, sep)[i] == before.last().push(s.last()));
                assert(split(s, sep)[i][j] == before[i][j]);
            }
        }
    } else if s.last() != sep {
        let i = before.len() - 1;
        assert(split(s, sep)[i] == before.last().push(s.last()));
        assert(split(s, sep)[i][before.last().len() as int] == s[k]);
    }
}

} // verus!

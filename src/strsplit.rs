//! A lazy splitter of a string slice at the matches of a delimiter.
//!
//! Matches are located on the char sequence that a `str` views as, and
//! reported as byte offsets into the haystack's UTF-8 encoding, as `str`
//! indexing counts them. Every piece yielded is a slice of the haystack.
use vstd::prelude::*;
use vstd::string::*;
use vstd::utf8::*;

verus! {

/// The number of bytes that the first `i` chars of `s` take in UTF-8.
pub open spec fn byte_offset(s: Seq<char>, i: int) -> int {
    encode_utf8(s.take(i)).len() as int
}

/// A pair of offsets, as integers.
pub open spec fn offsets(r: Option<(usize, usize)>) -> Option<(int, int)> {
    match r {
        Some((x, y)) => Some((x as int, y as int)),
        None => None,
    }
}

/// Encoding a concatenation concatenates the encodings.
proof fn lemma_encode_concat(x: Seq<char>, y: Seq<char>)
    ensures
        encode_utf8(x + y) == encode_utf8(x) + encode_utf8(y),
    decreases x.len(),
{
    if x.len() == 0 {
        assert(x + y =~= y);
        assert(encode_utf8(x) + encode_utf8(y) =~= encode_utf8(y));
    } else {
        assert((x + y).drop_first() =~= x.drop_first() + y);
        assert((x + y)[0] == x[0]);
        lemma_encode_concat(x.drop_first(), y);
        assert(encode_utf8(x + y) =~= encode_utf8(x) + encode_utf8(y));
    }
}

/// One more char adds the length of its encoding.
proof fn lemma_byte_offset_step(s: Seq<char>, k: int)
    requires
        0 <= k < s.len(),
    ensures
        byte_offset(s, k + 1) == byte_offset(s, k) + encode_scalar(s[k] as u32).len(),
        encode_scalar(s[k] as u32).len() >= 1,
{
    assert(s.take(k + 1) =~= s.take(k) + seq![s[k]]);
    lemma_encode_concat(s.take(k), seq![s[k]]);
    assert(seq![s[k]].drop_first() =~= Seq::<char>::empty());
    assert(encode_utf8(seq![s[k]]) =~= encode_scalar(s[k] as u32) + encode_utf8(
        Seq::<char>::empty(),
    ));
}

/// Byte offsets grow strictly with char positions.
proof fn lemma_byte_offset_monotone(s: Seq<char>, i: int, j: int)
    requires
        0 <= i <= j <= s.len(),
    ensures
        byte_offset(s, i) <= byte_offset(s, j),
        i < j ==> byte_offset(s, i) < byte_offset(s, j),
        byte_offset(s, j) - byte_offset(s, i) >= j - i,
        byte_offset(s, 0) == 0,
        byte_offset(s, s.len() as int) == encode_utf8(s).len(),
    decreases j - i,
{
    assert(s.take(0) =~= Seq::<char>::empty());
    assert(s.take(s.len() as int) =~= s);
    if i < j {
        lemma_byte_offset_step(s, j - 1);
        lemma_byte_offset_monotone(s, i, j - 1);
    }
}

/// The length of the UTF-8 encoding of `c`.
fn utf8_width(c: char) -> (r: usize)
    ensures
        r == encode_scalar(c as u32).len(),
{
    let v: u32 = c as u32;
    proof {
        char_is_scalar(c);
    }
    if v <= 0x7F {
        1
    } else if v <= 0x7FF {
        2
    } else if v <= 0xFFFF {
        3
    } else {
        4
    }
}

/// The byte offset of char position `i` of `s`; `total` is the byte length of
/// `s`.
fn byte_offset_exec(s: &str, i: usize, total: usize) -> (r: usize)
    requires
        i <= s@.len(),
        total == encode_utf8(s@).len(),
    ensures
        r == byte_offset(s@, i as int),
{
    proof {
        lemma_byte_offset_monotone(s@, 0, 0);
    }
    let mut k: usize = 0;
    let mut pos: usize = 0;
    while k < i
        invariant
            k <= i <= s@.len(),
            total == encode_utf8(s@).len(),
            pos == byte_offset(s@, k as int),
        decreases i - k,
    {
        let c: char = s.get_char(k);
        let w: usize = utf8_width(c);
        proof {
            lemma_byte_offset_step(s@, k as int);
            lemma_byte_offset_monotone(s@, k + 1, s@.len() as int);
        }
        pos = pos + w;
        k = k + 1;
    }
    pos
}

/// The char position whose byte offset in `s` is `x`.
fn char_position(s: &str, x: usize, Ghost(a): Ghost<int>) -> (k: usize)
    requires
        0 <= a <= s@.len(),
        x == byte_offset(s@, a),
    ensures
        k == a,
{
    proof {
        lemma_byte_offset_monotone(s@, 0, a);
    }
    let mut k: usize = 0;
    let mut pos: usize = 0;
    while pos < x
        invariant
            k <= a <= s@.len(),
            x == byte_offset(s@, a),
            pos == byte_offset(s@, k as int),
            pos <= x,
            a <= x,
        decreases a - k,
    {
        proof {
            if k == a {
                assert(false);
            }
        }
        let c: char = s.get_char(k);
        let w: usize = utf8_width(c);
        proof {
            lemma_byte_offset_step(s@, k as int);
            lemma_byte_offset_monotone(s@, k + 1, a);
        }
        pos = pos + w;
        k = k + 1;
    }
    proof {
        if k < a {
            lemma_byte_offset_monotone(s@, k as int, a);
        }
    }
    k
}

/// True when pattern `p` occurs in `s` starting at position `i`.
pub open spec fn occurs_at(s: Seq<char>, p: Seq<char>, i: int) -> bool {
    &&& 0 <= i
    &&& i + p.len() <= s.len()
    &&& s.subrange(i, i + p.len()) == p
}

/// The first position from `i` on where pattern `p` occurs in `s`.
pub open spec fn first_occurrence_from(s: Seq<char>, p: Seq<char>, i: int) -> Option<int>
    decreases s.len() - i,
{
    if i < 0 || i >= s.len() {
        None
    } else if occurs_at(s, p, i) {
        Some(i)
    } else {
        first_occurrence_from(s, p, i + 1)
    }
}

/// The first position from `i` on whose char is one of `cs`.
pub open spec fn first_of_any_from(s: Seq<char>, cs: Seq<char>, i: int) -> Option<int>
    decreases s.len() - i,
{
    if i < 0 || i >= s.len() {
        None
    } else if cs.contains(s[i]) {
        Some(i)
    } else {
        first_of_any_from(s, cs, i + 1)
    }
}

/// True when predicate `f` accepts `c`.
pub open spec fn accepts<F: Fn(char) -> bool>(f: &F, c: char) -> bool {
    f.ensures((c,), true)
}

/// The first position from `i` on whose char predicate `f` accepts.
pub open spec fn first_accepted_from<F: Fn(char) -> bool>(s: Seq<char>, f: &F, i: int) -> Option<
    int,
>
    decreases s.len() - i,
{
    if i < 0 || i >= s.len() {
        None
    } else if accepts(f, s[i]) {
        Some(i)
    } else {
        first_accepted_from(s, f, i + 1)
    }
}

/// What separates the pieces of a haystack.
pub trait Delimiter {
    /// True when the delimiter gives one answer to each question it is asked;
    /// a predicate must accept every char as input and be deterministic.
    spec fn well_behaved(&self) -> bool;

    /// The first match in `s`, as the char positions where it starts and ends.
    spec fn spec_find_next(&self, s: Seq<char>) -> Option<(int, int)>;

    /// Finds the first match in `s`, as the byte offsets where it starts and
    /// ends.
    fn find_next(&self, s: &str) -> (r: Option<(usize, usize)>)
        requires
            self.well_behaved(),
        ensures
            match self.spec_find_next(s@) {
                None => r is None,
                Some((a, b)) => {
                    &&& 0 <= a <= b <= s@.len()
                    &&& offsets(r) == Some((byte_offset(s@, a), byte_offset(s@, b)))
                },
            },
    ;
}

/// Whether `p` occurs in `s` at position `i`; `n` and `m` are their lengths.
fn occurs_at_exec(s: &str, p: &str, i: usize, n: usize, m: usize) -> (r: bool)
    requires
        n == s@.len(),
        m == p@.len(),
        i <= n,
    ensures
        r == occurs_at(s@, p@, i as int),
{
    if m > n - i {
        return false;
    }
    let mut k: usize = 0;
    while k < m
        invariant
            k <= m,
            i + m <= n,
            n == s@.len(),
            m == p@.len(),
            forall|t: int| 0 <= t < k ==> s@[i + t] == p@[t],
        decreases m - k,
    {
        if s.get_char(i + k) != p.get_char(k) {
            assert(s@.subrange(i as int, i + m)[k as int] != p@[k as int]);
            return false;
        }
        k = k + 1;
    }
    assert(s@.subrange(i as int, i + m) =~= p@);
    true
}

impl<'b> Delimiter for &'b str {
    open spec fn well_behaved(&self) -> bool {
        true
    }

    /// An empty pattern matches, with no width, at the start; any other
    /// matches where it first occurs.
    open spec fn spec_find_next(&self, s: Seq<char>) -> Option<(int, int)> {
        if self@.len() == 0 {
            Some((0, 0))
        } else {
            match first_occurrence_from(s, self@, 0) {
                Some(i) => Some((i, i + self@.len())),
                None => None,
            }
        }
    }

    fn find_next(&self, s: &str) -> (r: Option<(usize, usize)>) {
        let p: &str = *self;
        let m: usize = p.unicode_len();
        if m == 0 {
            proof {
                lemma_byte_offset_monotone(s@, 0, 0);
            }
            return Some((0, 0));
        }
        let n: usize = s.unicode_len();
        let mut i: usize = 0;
        while i < n
            invariant
                i <= n,
                n == s@.len(),
                m == p@.len(),
                p@ == self@,
                m > 0,
                first_occurrence_from(s@, p@, 0) == first_occurrence_from(s@, p@, i as int),
            decreases n - i,
        {
            if occurs_at_exec(s, p, i, n, m) {
                let total: usize = s.as_bytes().len();
                return Some((byte_offset_exec(s, i, total), byte_offset_exec(s, i + m, total)));
            }
            i = i + 1;
        }
        None
    }
}

impl Delimiter for char {
    open spec fn well_behaved(&self) -> bool {
        true
    }

    /// A char matches, one position wide, where it first occurs.
    open spec fn spec_find_next(&self, s: Seq<char>) -> Option<(int, int)> {
        match first_of_any_from(s, seq![*self], 0) {
            Some(i) => Some((i, i + 1)),
            None => None,
        }
    }

    fn find_next(&self, s: &str) -> (r: Option<(usize, usize)>) {
        let c: char = *self;
        let n: usize = s.unicode_len();
        let mut i: usize = 0;
        while i < n
            invariant
                i <= n,
                n == s@.len(),
                c == *self,
                first_of_any_from(s@, seq![c], 0) == first_of_any_from(s@, seq![c], i as int),
            decreases n - i,
        {
            let x: char = s.get_char(i);
            assert(seq![c].contains(x) <==> x == c) by {
                if x == c {
                    assert(seq![c][0] == x);
                }
            }
            if x == c {
                let total: usize = s.as_bytes().len();
                return Some((byte_offset_exec(s, i, total), byte_offset_exec(s, i + 1, total)));
            }
            i = i + 1;
        }
        None
    }
}

impl<'b> Delimiter for &'b [char] {
    open spec fn well_behaved(&self) -> bool {
        true
    }

    /// A set of chars matches, one position wide, where any of them first
    /// occurs.
    open spec fn spec_find_next(&self, s: Seq<char>) -> Option<(int, int)> {
        match first_of_any_from(s, self@, 0) {
            Some(i) => Some((i, i + 1)),
            None => None,
        }
    }

    fn find_next(&self, s: &str) -> (r: Option<(usize, usize)>) {
        let cs: &[char] = *self;
        let n: usize = s.unicode_len();
        let mut i: usize = 0;
        while i < n
            invariant
                i <= n,
                n == s@.len(),
                cs@ == self@,
                first_of_any_from(s@, cs@, 0) == first_of_any_from(s@, cs@, i as int),
            decreases n - i,
        {
            let x: char = s.get_char(i);
            let mut j: usize = 0;
            while j < cs.len()
                invariant
                    j <= cs@.len(),
                    i < n,
                    n == s@.len(),
                    cs@ == self@,
                    x == s@[i as int],
                    first_of_any_from(s@, cs@, 0) == first_of_any_from(s@, cs@, i as int),
                    forall|t: int| 0 <= t < j ==> cs@[t] != x,
                decreases cs@.len() - j,
            {
                if cs[j] == x {
                    assert(cs@.contains(x));
                    let total: usize = s.as_bytes().len();
                    return Some(
                        (byte_offset_exec(s, i, total), byte_offset_exec(s, i + 1, total)),
                    );
                }
                j = j + 1;
            }
            assert(!cs@.contains(x));
            i = i + 1;
        }
        None
    }
}

impl<F: Fn(char) -> bool> Delimiter for F {
    open spec fn well_behaved(&self) -> bool {
        &&& forall|c: char| self.requires((c,))
        &&& forall|c: char, b1: bool, b2: bool|
            self.ensures((c,), b1) && self.ensures((c,), b2) ==> b1 == b2
    }

    /// A predicate matches, one position wide, at the first char it accepts.
    open spec fn spec_find_next(&self, s: Seq<char>) -> Option<(int, int)> {
        match first_accepted_from(s, self, 0) {
            Some(i) => Some((i, i + 1)),
            None => None,
        }
    }

    fn find_next(&self, s: &str) -> (r: Option<(usize, usize)>) {
        let n: usize = s.unicode_len();
        let mut i: usize = 0;
        while i < n
            invariant
                i <= n,
                n == s@.len(),
                self.well_behaved(),
                first_accepted_from(s@, self, 0) == first_accepted_from(s@, self, i as int),
            decreases n - i,
        {
            let x: char = s.get_char(i);
            let hit: bool = self(x);
            if hit {
                let total: usize = s.as_bytes().len();
                return Some((byte_offset_exec(s, i, total), byte_offset_exec(s, i + 1, total)));
            }
            assert(!accepts(self, x));
            i = i + 1;
        }
        None
    }
}

/// Splits a haystack lazily at the matches of a delimiter.
#[derive(Debug, PartialEq)]
pub struct StrSplit<'haystack, D> {
    /// What is left to split; `None` once the last piece has been handed out.
    pub remainder: Option<&'haystack str>,
    pub delimiter: D,
    empty_leading_pending: bool,
}

/// The chars of an optional slice.
pub open spec fn opt_chars(o: Option<&str>) -> Option<Seq<char>> {
    match o {
        Some(s) => Some(s@),
        None => None,
    }
}

/// The chars of each slice of a sequence.
pub open spec fn seq_chars(v: Seq<&str>) -> Seq<Seq<char>> {
    v.map_values(|x: &str| x@)
}

/// One step of splitting: from the remainder `rest` and the flag `pending`
/// (a zero-width match at the front has not yet yielded its empty piece),
/// the piece yielded, the next remainder and the next flag.
///
/// A match of positive width yields what precedes it and continues after it.
/// A zero-width match yields an empty piece once, then single chars, then a
/// final empty piece. No match yields the whole remainder, as the last piece.
pub open spec fn split_step<D: Delimiter>(d: D, rest: Option<Seq<char>>, pending: bool) -> (
    Option<Seq<char>>,
    Option<Seq<char>>,
    bool,
) {
    match rest {
        None => (None, None, pending),
        Some(s) => match d.spec_find_next(s) {
            Some((a, b)) => {
                if !(0 <= a <= b <= s.len()) {
                    // not a match within `s`: no delimiter's contract allows it
                    (Some(s), None, true)
                } else if a == b {
                    if pending {
                        (Some(Seq::empty()), Some(s), false)
                    } else if s.len() == 0 {
                        (Some(s), None, false)
                    } else {
                        (Some(s.take(1)), Some(s.skip(1)), false)
                    }
                } else {
                    (Some(s.take(a)), Some(s.skip(b)), true)
                }
            },
            None => (Some(s), None, true),
        },
    }
}

/// A measure that every step which yields a piece lowers.
pub open spec fn split_measure(rest: Option<Seq<char>>, pending: bool) -> nat {
    match rest {
        None => 0,
        Some(s) => 2 * s.len() + 2 + if pending { 1nat } else { 0nat },
    }
}

/// Every piece still to come, in order.
pub open spec fn split_all<D: Delimiter>(d: D, rest: Option<Seq<char>>, pending: bool) -> Seq<
    Seq<char>,
>
    decreases split_measure(rest, pending),
{
    let (piece, rest2, pending2) = split_step(d, rest, pending);
    match piece {
        None => Seq::empty(),
        Some(x) => seq![x] + split_all(d, rest2, pending2),
    }
}

/// The pieces of single chars.
pub open spec fn singles(s: Seq<char>) -> Seq<Seq<char>> {
    s.map_values(|c: char| seq![c])
}

/// With an empty pattern, once the leading empty piece has been yielded, the
/// rest comes one char at a time, then one final empty piece.
proof fn lemma_empty_pattern_rest(d: &str, s: Seq<char>)
    requires
        d@.len() == 0,
    ensures
        split_all(d, Some(s), false) == singles(s) + seq![Seq::<char>::empty()],
    decreases s.len(),
{
    if s.len() == 0 {
        assert(d.spec_find_next(s) == Some((0int, 0int)));
        assert(split_step(d, Some(s), false) == (Some(s), Option::<Seq<char>>::None, false));
        assert(split_all(d, Option::<Seq<char>>::None, false) =~= Seq::<Seq<char>>::empty());
        assert(split_all(d, Some(s), false) == seq![s] + split_all(
            d,
            Option::<Seq<char>>::None,
            false,
        ));
        assert(s =~= Seq::<char>::empty());
        assert(singles(s) =~= Seq::<Seq<char>>::empty());
        assert(split_all(d, Some(s), false) =~= singles(s) + seq![Seq::<char>::empty()]);
    } else {
        lemma_empty_pattern_rest(d, s.skip(1));
        assert(d.spec_find_next(s) == Some((0int, 0int)));
        assert(split_step(d, Some(s), false) == (
            Some(s.take(1)),
            Some(s.skip(1)),
            false,
        ));
        assert(split_all(d, Some(s), false) == seq![s.take(1)] + split_all(
            d,
            Some(s.skip(1)),
            false,
        ));
        assert(s.take(1) =~= seq![s[0]]);
        assert(singles(s) =~= seq![seq![s[0]]] + singles(s.skip(1)));
        assert(split_all(d, Some(s), false) =~= singles(s) + seq![Seq::<char>::empty()]);
    }
}

/// Splitting with an empty pattern yields an empty piece, then each char of
/// the haystack as a piece of its own, then an empty piece.
pub proof fn lemma_empty_pattern_splits_into_chars(d: &str, s: Seq<char>)
    requires
        d@.len() == 0,
    ensures
        split_all(d, Some(s), true) == seq![Seq::<char>::empty()] + singles(s) + seq![
            Seq::<char>::empty(),
        ],
{
    lemma_empty_pattern_rest(d, s);
    assert(split_all(d, Some(s), true) =~= seq![Seq::<char>::empty()] + split_all(
        d,
        Some(s),
        false,
    ));
    assert(seq![Seq::<char>::empty()] + (singles(s) + seq![Seq::<char>::empty()])
        =~= seq![Seq::<char>::empty()] + singles(s) + seq![Seq::<char>::empty()]);
}

/// The pieces `ps` joined, with `sep` between each two.
pub open spec fn join(ps: Seq<Seq<char>>, sep: Seq<char>) -> Seq<char>
    decreases ps.len(),
{
    if ps.len() == 0 {
        Seq::empty()
    } else if ps.len() == 1 {
        ps[0]
    } else {
        ps[0] + sep + join(ps.drop_first(), sep)
    }
}

/// What the first-of-any search finds lies in range and is one of `cs`, and
/// no char before it from `i` on is.
proof fn lemma_first_of_any_found(s: Seq<char>, cs: Seq<char>, i: int)
    requires
        0 <= i,
    ensures
        match first_of_any_from(s, cs, i) {
            Some(k) => {
                &&& i <= k < s.len()
                &&& cs.contains(s[k])
                &&& forall|j: int| i <= j < k ==> !cs.contains(#[trigger] s[j])
            },
            None => forall|j: int| i <= j < s.len() ==> !cs.contains(#[trigger] s[j]),
        },
    decreases s.len() - i,
{
    if 0 <= i < s.len() && !cs.contains(s[i]) {
        lemma_first_of_any_found(s, cs, i + 1);
    }
}

/// While no empty piece is owed, splitting at a char yields at least one piece,
/// no piece holds that char, and the pieces joined by it give back the haystack.
proof fn lemma_char_split_rejoins(c: char, s: Seq<char>)
    ensures
        split_all(c, Some(s), true).len() >= 1,
        join(split_all(c, Some(s), true), seq![c]) == s,
        forall|t: int|
            0 <= t < split_all(c, Some(s), true).len() ==> !(#[trigger] split_all(
                c,
                Some(s),
                true,
            )[t]).contains(c),
    decreases s.len(),
{
    lemma_first_of_any_found(s, seq![c], 0);
    match first_of_any_from(s, seq![c], 0) {
        Some(k) => {
            let head = s.take(k);
            let tail = s.skip(k + 1);
            assert(split_step(c, Some(s), true) == (Some(head), Some(tail), true));
            lemma_char_split_rejoins(c, tail);
            let rest = split_all(c, Some(tail), true);
            assert(split_all(c, Some(s), true) == seq![head] + rest);
            assert((seq![head] + rest).drop_first() =~= rest);
            assert(seq![c].contains(s[k]));
            assert(s[k] == c);
            assert(s =~= head + seq![c] + join(rest, seq![c]));
            assert forall|j: int| 0 <= j < head.len() implies head[j] != c by {
                assert(head[j] == s[j]);
                if s[j] == c {
                    assert(seq![c][0] == s[j]);
                    assert(seq![c].contains(s[j]));
                }
            }
            assert forall|t: int| 0 <= t < split_all(c, Some(s), true).len() implies !(
            #[trigger] split_all(c, Some(s), true)[t]).contains(c) by {
                if t > 0 {
                    assert(split_all(c, Some(s), true)[t] == rest[t - 1]);
                }
            }
        },
        None => {
            assert(split_step(c, Some(s), true) == (Some(s), Option::<Seq<char>>::None, true));
            assert(split_all(c, Option::<Seq<char>>::None, true) =~= Seq::<Seq<char>>::empty());
            assert(split_all(c, Some(s), true) =~= seq![s]);
            assert forall|j: int| 0 <= j < s.len() implies s[j] != c by {
                if s[j] == c {
                    assert(seq![c][0] == s[j]);
                    assert(seq![c].contains(s[j]));
                }
            }
        },
    }
}

/// Splitting a haystack at a char and joining the pieces with that char gives
/// the haystack back.
pub proof fn lemma_char_split_then_join(c: char, s: Seq<char>)
    ensures
        join(split_all(c, Some(s), true), seq![c]) == s,
{
    lemma_char_split_rejoins(c, s);
}

/// No piece of a haystack split at a char holds that char.
pub proof fn lemma_char_split_pieces_lack_delimiter(c: char, s: Seq<char>)
    ensures
        forall|t: int|
            0 <= t < split_all(c, Some(s), true).len() ==> !(#[trigger] split_all(
                c,
                Some(s),
                true,
            )[t]).contains(c),
{
    lemma_char_split_rejoins(c, s);
}

impl<'haystack, D: Delimiter> StrSplit<'haystack, D> {
    /// Whether a zero-width match at the front still owes its empty piece.
    pub closed spec fn pending(&self) -> bool {
        self.empty_leading_pending
    }

    /// The delimiter.
    pub closed spec fn delim(&self) -> D {
        self.delimiter
    }

    /// The chars left to split.
    pub closed spec fn rest(&self) -> Option<Seq<char>> {
        opt_chars(self.remainder)
    }

    /// A splitter over the whole of `haystack`.
    pub fn new(haystack: &'haystack str, delimiter: D) -> (r: Self)
        ensures
            r.rest() == Some(haystack@),
            r.delim() == delimiter,
            r.pending(),
    {
        StrSplit { remainder: Some(haystack), delimiter, empty_leading_pending: true }
    }

    /// The next piece, or `None` once every piece has been handed out.
    pub fn next(&mut self) -> (r: Option<&'haystack str>)
        requires
            old(self).delim().well_behaved(),
        ensures
            ({
                let (piece, rest, pending) = split_step(
                    old(self).delim(),
                    old(self).rest(),
                    old(self).pending(),
                );
                &&& opt_chars(r) == piece
                &&& final(self).rest() == rest
                &&& final(self).pending() == pending
            }),
            final(self).delim() == old(self).delim(),
            r is None <==> old(self).rest() is None,
            r is Some ==> split_measure(final(self).rest(), final(self).pending()) < split_measure(
                old(self).rest(),
                old(self).pending(),
            ),
    {
        let s: &'haystack str = match self.remainder {
            Some(s) => s,
            None => {
                return None;
            },
        };
        self.remainder = None;
        match self.delimiter.find_next(s) {
            Some((start_byte, end_byte)) => {
                let ghost m = self.delimiter.spec_find_next(s@)->0;
                let start: usize = char_position(s, start_byte, Ghost(m.0));
                let end: usize = char_position(s, end_byte, Ghost(m.1));
                if start == end {
                    if self.empty_leading_pending {
                        self.empty_leading_pending = false;
                        self.remainder = Some(s);
                        return Some(s.substring_char(0, 0));
                    }
                    if s.is_empty() {
                        return Some(s.substring_char(0, 0));
                    }
                    let n: usize = s.unicode_len();
                    self.remainder = Some(s.substring_char(1, n));
                    return Some(s.substring_char(0, 1));
                }
                let n: usize = s.unicode_len();
                let head: &'haystack str = s.substring_char(0, start);
                let tail: &'haystack str = s.substring_char(end, n);
                self.empty_leading_pending = true;
                self.remainder = Some(tail);
                Some(head)
            },
            None => {
                self.empty_leading_pending = true;
                Some(s)
            },
        }
    }

    /// Every piece that is left, in order.
    pub fn collect(self) -> (r: Vec<&'haystack str>)
        requires
            self.delim().well_behaved(),
        ensures
            seq_chars(r@) == split_all(self.delim(), self.rest(), self.pending()),
    {
        let mut it = self;
        let mut out: Vec<&'haystack str> = Vec::new();
        loop
            invariant
                it.delim() == self.delim(),
                self.delim().well_behaved(),
                seq_chars(out@) + split_all(it.delim(), it.rest(), it.pending()) == split_all(
                    self.delim(),
                    self.rest(),
                    self.pending(),
                ),
            ensures
                seq_chars(out@) == split_all(self.delim(), self.rest(), self.pending()),
            decreases split_measure(it.rest(), it.pending()),
        {
            let ghost before = it;
            let ghost out_before = out@;
            match it.next() {
                Some(p) => {
                    out.push(p);
                    assert(seq_chars(out@) =~= seq_chars(out_before).push(p@));
                    assert(split_all(before.delim(), before.rest(), before.pending()) == seq![p@]
                        + split_all(it.delim(), it.rest(), it.pending()));
                    assert(seq_chars(out@) + split_all(it.delim(), it.rest(), it.pending())
                        =~= seq_chars(out_before) + split_all(
                        before.delim(),
                        before.rest(),
                        before.pending(),
                    ));
                },
                None => {
                    assert(seq_chars(out@) =~= seq_chars(out@) + split_all(
                        it.delim(),
                        it.rest(),
                        it.pending(),
                    ));
                    break ;
                },
            }
        }
        out
    }
}

} // verus!

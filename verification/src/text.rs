//! Character-level helpers shared by the rest of the crate.

use vstd::prelude::*;
use vstd::utf8::*;

verus! {

/// Number of bytes that `s` takes in UTF-8, which is what `String::len` reports.
pub open spec fn byte_len(s: Seq<char>) -> nat {
    encode_utf8(s).len()
}

/// A text has at least as many bytes as characters.
pub proof fn lemma_byte_len_bound(s: Seq<char>)
    ensures
        s.len() <= byte_len(s),
    decreases s.len(),
{
    if s.len() > 0 {
        lemma_byte_len_bound(s.drop_first());
    }
}

/// The bytes of two texts in a row are the bytes of the one and of the other.
pub proof fn lemma_byte_len_concat(a: Seq<char>, b: Seq<char>)
    ensures
        byte_len(a + b) == byte_len(a) + byte_len(b),
    decreases a.len(),
{
    if a.len() == 0 {
        assert(a + b =~= b);
    } else {
        assert((a + b).drop_first() =~= a.drop_first() + b);
        lemma_byte_len_concat(a.drop_first(), b);
    }
}

/// Number of bytes that `c` takes in UTF-8.
pub open spec fn width_of(c: char) -> nat {
    encode_scalar(c as u32).len()
}

/// A longer start of a text takes more bytes.
pub proof fn lemma_byte_len_take(s: Seq<char>, i: int, j: int)
    requires
        0 <= i <= j <= s.len(),
    ensures
        byte_len(s.take(i)) <= byte_len(s.take(j)),
        i < j ==> byte_len(s.take(i)) < byte_len(s.take(j)),
        j < s.len() ==> byte_len(s.take(j + 1)) == byte_len(s.take(j)) + width_of(s[j]),
{
    assert(s.take(j) =~= s.take(i) + s.subrange(i, j));
    lemma_byte_len_concat(s.take(i), s.subrange(i, j));
    lemma_byte_len_bound(s.subrange(i, j));
    if j < s.len() {
        assert(s.take(j + 1) =~= s.take(j) + seq![s[j]]);
        lemma_byte_len_concat(s.take(j), seq![s[j]]);
        assert(seq![s[j]].drop_first() =~= Seq::<char>::empty());
        assert(encode_utf8(Seq::<char>::empty()).len() == 0);
        assert(encode_utf8(seq![s[j]]) == encode_scalar(s[j] as u32) + encode_utf8(
            seq![s[j]].drop_first(),
        ));
        assert(byte_len(seq![s[j]]) == width_of(s[j]));
    }
}

/// Number of bytes that `c` takes in UTF-8.
pub fn utf8_width(c: char) -> (r: usize)
    ensures
        r == width_of(c),
        1 <= r <= 4,
{
    let code: u32 = c as u32;
    if code <= 0x7F {
        1
    } else if code <= 0x7FF {
        2
    } else if code <= 0xFFFF {
        3
    } else {
        4
    }
}

/// Lexicographic order on byte strings.
pub open spec fn bytes_lt(x: Seq<u8>, y: Seq<u8>) -> bool {
    exists|k: int|
        0 <= k <= x.len() && k <= y.len() && #[trigger] x.take(k) == y.take(k) && ((k == x.len()
            && k < y.len()) || (k < x.len() && k < y.len() && x[k] < y[k]))
}

/// The order in which keys are kept: byte-wise on the UTF-8 encoding, as
/// `str` orders itself.
pub open spec fn key_lt(a: Seq<char>, b: Seq<char>) -> bool {
    bytes_lt(encode_utf8(a), encode_utf8(b))
}

/// How one key stands to another.
#[derive(Clone, Copy, Debug, PartialEq, Eq, Structural)]
pub enum Rank {
    Before,
    Same,
    After,
}

/// How `a` stands to `b` in the order of keys.
pub open spec fn rank_of(a: Seq<char>, b: Seq<char>) -> Rank {
    if a == b {
        Rank::Same
    } else if key_lt(a, b) {
        Rank::Before
    } else {
        Rank::After
    }
}

/// Texts with the same bytes are the same text.
pub proof fn lemma_encode_injective(a: Seq<char>, b: Seq<char>)
    requires
        encode_utf8(a) == encode_utf8(b),
    ensures
        a == b,
{
    encode_utf8_decode_utf8(a);
    encode_utf8_decode_utf8(b);
}

/// No byte string comes before itself.
pub proof fn lemma_bytes_lt_irreflexive(x: Seq<u8>)
    ensures
        !bytes_lt(x, x),
{
}

/// What comes before something that comes before a third comes before the third.
pub proof fn lemma_bytes_lt_transitive(x: Seq<u8>, y: Seq<u8>, z: Seq<u8>)
    requires
        bytes_lt(x, y),
        bytes_lt(y, z),
    ensures
        bytes_lt(x, z),
{
    let k1 = choose|k: int|
        0 <= k <= x.len() && k <= y.len() && #[trigger] x.take(k) == y.take(k) && ((k == x.len()
            && k < y.len()) || (k < x.len() && k < y.len() && x[k] < y[k]));
    let k2 = choose|k: int|
        0 <= k <= y.len() && k <= z.len() && #[trigger] y.take(k) == z.take(k) && ((k == y.len()
            && k < z.len()) || (k < y.len() && k < z.len() && y[k] < z[k]));
    let k = if k1 <= k2 { k1 } else { k2 };
    assert(x.take(k) =~= z.take(k)) by {
        assert forall|j: int| 0 <= j < k implies x[j] == z[j] by {
            assert(x.take(k1)[j] == y.take(k1)[j]);
            assert(y.take(k2)[j] == z.take(k2)[j]);
        }
    }
    if k1 < k2 {
        assert(y.take(k2)[k1] == z.take(k2)[k1]);
    } else if k2 < k1 {
        assert(x.take(k1)[k2] == y.take(k1)[k2]);
    }
}

/// Two different byte strings are ordered one way or the other.
pub proof fn lemma_bytes_lt_total(x: Seq<u8>, y: Seq<u8>, i: int)
    requires
        0 <= i <= x.len(),
        i <= y.len(),
        x.take(i) == y.take(i),
    ensures
        x == y || bytes_lt(x, y) || bytes_lt(y, x),
    decreases x.len() - i,
{
    if i == x.len() || i == y.len() {
        if x.len() == y.len() {
            assert(x.take(i) =~= x);
            assert(y.take(i) =~= y);
        } else {
            assert(y.take(i) == x.take(i));
        }
    } else if x[i] != y[i] {
        assert(y.take(i) == x.take(i));
    } else {
        assert(x.take(i + 1) =~= x.take(i).push(x[i]));
        assert(y.take(i + 1) =~= y.take(i).push(y[i]));
        lemma_bytes_lt_total(x, y, i + 1);
    }
}

/// No key comes before itself.
pub proof fn lemma_key_lt_irreflexive(a: Seq<char>)
    ensures
        !key_lt(a, a),
{
}

/// The order of keys is transitive.
pub proof fn lemma_key_lt_transitive(a: Seq<char>, b: Seq<char>, c: Seq<char>)
    requires
        key_lt(a, b),
        key_lt(b, c),
    ensures
        key_lt(a, c),
{
    lemma_bytes_lt_transitive(encode_utf8(a), encode_utf8(b), encode_utf8(c));
}

/// Of two keys only one comes before the other.
pub proof fn lemma_key_lt_asymmetric(a: Seq<char>, b: Seq<char>)
    requires
        key_lt(a, b),
    ensures
        !key_lt(b, a),
{
    if key_lt(b, a) {
        lemma_key_lt_transitive(a, b, a);
        lemma_key_lt_irreflexive(a);
    }
}

/// Two different keys are ordered one way or the other.
pub proof fn lemma_key_lt_total(a: Seq<char>, b: Seq<char>)
    ensures
        a == b || key_lt(a, b) || key_lt(b, a),
{
    let x = encode_utf8(a);
    let y = encode_utf8(b);
    assert(x.take(0) =~= y.take(0));
    lemma_bytes_lt_total(x, y, 0);
    if x == y {
        lemma_encode_injective(a, b);
    }
}

/// Compares two strings as `str` orders them, and tells whether they are equal.
pub fn compare(a: &str, b: &str) -> (r: Rank)
    ensures
        r == rank_of(a@, b@),
{
    let x = a.as_bytes();
    let y = b.as_bytes();
    let mut i: usize = 0;
    while i < x.len() && i < y.len()
        invariant
            i <= x.len(),
            i <= y.len(),
            x@.take(i as int) == y@.take(i as int),
            x@ == encode_utf8(a@),
            y@ == encode_utf8(b@),
        decreases x.len() - i,
    {
        if x[i] < y[i] {
            proof {
                lemma_key_lt_irreflexive(a@);
            }
            return Rank::Before;
        }
        if x[i] > y[i] {
            proof {
                assert(y@.take(i as int) == x@.take(i as int));
                assert(key_lt(b@, a@));
                lemma_key_lt_asymmetric(b@, a@);
                lemma_key_lt_irreflexive(a@);
            }
            return Rank::After;
        }
        proof {
            assert(x@.take(i + 1) =~= x@.take(i as int).push(x@[i as int]));
            assert(y@.take(i + 1) =~= y@.take(i as int).push(y@[i as int]));
        }
        i += 1;
    }
    if x.len() < y.len() {
        proof {
            lemma_key_lt_irreflexive(a@);
        }
        Rank::Before
    } else if x.len() > y.len() {
        proof {
            assert(y@.take(i as int) == x@.take(i as int));
            assert(key_lt(b@, a@));
            lemma_key_lt_asymmetric(b@, a@);
            lemma_key_lt_irreflexive(a@);
        }
        Rank::After
    } else {
        proof {
            assert(x@.take(i as int) =~= x@);
            assert(y@.take(i as int) =~= y@);
            lemma_encode_injective(a@, b@);
        }
        Rank::Same
    }
}

/// Whether two strings hold the same characters.
pub fn same_text(a: &str, b: &str) -> (r: bool)
    ensures
        r == (a@ == b@),
{
    match compare(a, b) {
        Rank::Same => true,
        _ => false,
    }
}

/// Appends one character to `s`.
///
/// Trusted: `String::push` is taken to append exactly the given character.
#[verifier::external_body]
pub(crate) fn push_char(s: &mut String, c: char)
    ensures
        final(s)@ == old(s)@.push(c),
{
    s.push(c)
}

/// The characters of `s`, in order.
pub fn to_chars(s: &str) -> (r: Vec<char>)
    ensures
        r@ == s@,
{
    let mut out: Vec<char> = Vec::new();
    for c in it: s.chars()
        invariant
            out@ == it.seq().take(it.index() as int),
            it.seq() == s@,
    {
        out.push(c);
    }
    out
}

/// The string made of the characters of `v`, in order.
pub fn from_chars(v: &Vec<char>) -> (r: String)
    ensures
        r@ == v@,
{
    let mut out = String::new();
    let mut i: usize = 0;
    while i < v.len()
        invariant
            i <= v.len(),
            out@ == v@.take(i as int),
        decreases v.len() - i,
    {
        push_char(&mut out, v[i]);
        i += 1;
    }
    out
}

/// Length of `s` in bytes of UTF-8.
pub fn byte_length(s: &str) -> (r: usize)
    ensures
        r == byte_len(s@),
{
    s.as_bytes().len()
}

/// The views of a list of character vectors.
pub open spec fn rows(v: Seq<Vec<char>>) -> Seq<Seq<char>> {
    v.map_values(|x: Vec<char>| x@)
}

/// The views of a list of strings.
pub open spec fn texts(v: Seq<String>) -> Seq<Seq<char>> {
    v.map_values(|x: String| x@)
}

/// Appends the characters `src[from..to]` to `out`.
pub fn append_chars(out: &mut Vec<char>, src: &Vec<char>, from: usize, to: usize)
    requires
        from <= to <= src.len(),
    ensures
        final(out)@ == old(out)@ + src@.subrange(from as int, to as int),
{
    let mut i: usize = from;
    while i < to
        invariant
            from <= i <= to,
            to <= src.len(),
            out@ == old(out)@ + src@.subrange(from as int, i as int),
        decreases to - i,
    {
        out.push(src[i]);
        assert(src@.subrange(from as int, i + 1) =~= src@.subrange(from as int, i as int).push(
            src@[i as int],
        ));
        i += 1;
    }
}

/// The characters `src[from..to]` as a vector of their own.
pub fn slice_chars(src: &Vec<char>, from: usize, to: usize) -> (r: Vec<char>)
    requires
        from <= to <= src.len(),
    ensures
        r@ == src@.subrange(from as int, to as int),
{
    let mut out: Vec<char> = Vec::new();
    append_chars(&mut out, src, from, to);
    out
}

/// `pat` stands in `s` at place `i`.
pub open spec fn occurs_at(s: Seq<char>, pat: Seq<char>, i: int) -> bool {
    0 <= i && i + pat.len() <= s.len() && s.subrange(i, i + pat.len()) == pat
}

/// `i` is the first place at or after `from` where `pat` stands in `s`.
pub open spec fn first_at(s: Seq<char>, pat: Seq<char>, from: int, i: int) -> bool {
    from <= i && occurs_at(s, pat, i) && forall|j: int| from <= j < i ==> !occurs_at(s, pat, j)
}

/// `pat` stands nowhere in `s` at or after `from`.
pub open spec fn absent_from(s: Seq<char>, pat: Seq<char>, from: int) -> bool {
    forall|j: int| from <= j ==> !occurs_at(s, pat, j)
}

/// Whether `pat` stands in `s` at place `i`.
pub fn matches_at(s: &Vec<char>, pat: &Vec<char>, i: usize) -> (r: bool)
    ensures
        r == occurs_at(s@, pat@, i as int),
{
    if pat.len() > s.len() || i > s.len() - pat.len() {
        return false;
    }
    let mut k: usize = 0;
    while k < pat.len()
        invariant
            k <= pat.len(),
            i + pat.len() <= s.len(),
            s@.subrange(i as int, i + k) == pat@.take(k as int),
        decreases pat.len() - k,
    {
        if s[i + k] != pat[k] {
            assert(s@.subrange(i as int, i + pat.len())[k as int] != pat@[k as int]);
            return false;
        }
        assert(s@.subrange(i as int, i + k + 1) =~= s@.subrange(i as int, i + k).push(
            s@[i + k],
        ));
        assert(pat@.take(k + 1) =~= pat@.take(k as int).push(pat@[k as int]));
        k += 1;
    }
    assert(pat@.take(k as int) =~= pat@);
    true
}

/// The first place at or after `from` where `pat` stands in `s`.
pub fn find_from(s: &Vec<char>, pat: &Vec<char>, from: usize) -> (r: Option<usize>)
    ensures
        match r {
            Some(i) => first_at(s@, pat@, from as int, i as int),
            None => absent_from(s@, pat@, from as int),
        },
{
    if pat.len() > s.len() || from > s.len() - pat.len() {
        return None;
    }
    let last: usize = s.len() - pat.len();
    let mut i: usize = from;
    loop
        invariant
            from <= i <= last,
            last == s.len() - pat.len(),
            forall|j: int| from <= j < i ==> !occurs_at(s@, pat@, j),
        decreases last - i,
    {
        if matches_at(s, pat, i) {
            return Some(i);
        }
        if i == last {
            return None;
        }
        i += 1;
    }
}

/// The pieces of `s` between the occurrences of `pat`, taken from the left
/// without overlap. With an empty `pat` every character is a piece of its own,
/// between two empty pieces.
pub open spec fn split_on(s: Seq<char>, pat: Seq<char>) -> Seq<Seq<char>>
    decreases s.len(),
{
    if pat.len() == 0 {
        seq![Seq::<char>::empty()] + s.map_values(|c: char| seq![c]) + seq![Seq::<char>::empty()]
    } else if exists|i: int| first_at(s, pat, 0, i) {
        let i = choose|i: int| first_at(s, pat, 0, i);
        seq![s.take(i)] + split_on(s.skip(i + pat.len()), pat)
    } else {
        seq![s]
    }
}

proof fn lemma_occurs_skip(s: Seq<char>, pat: Seq<char>, p: int, j: int)
    requires
        0 <= p <= s.len(),
        0 <= j,
    ensures
        occurs_at(s.skip(p), pat, j) == occurs_at(s, pat, j + p),
{
    if j + pat.len() <= s.len() - p {
        assert(s.skip(p).subrange(j, j + pat.len()) =~= s.subrange(j + p, j + p + pat.len()));
    }
}

/// Unfolds `split_on` at the first occurrence found from place `p` on.
proof fn lemma_split_step(s: Seq<char>, pat: Seq<char>, p: int, i: int)
    requires
        pat.len() > 0,
        0 <= p <= s.len(),
        first_at(s, pat, p, i),
    ensures
        split_on(s.skip(p), pat) == seq![s.subrange(p, i)] + split_on(s.skip(i + pat.len()), pat),
{
    let t = s.skip(p);
    lemma_occurs_skip(s, pat, p, i - p);
    assert(first_at(t, pat, 0, i - p)) by {
        assert forall|j: int| 0 <= j < i - p implies !occurs_at(t, pat, j) by {
            lemma_occurs_skip(s, pat, p, j);
        }
    }
    let c = choose|c: int| first_at(t, pat, 0, c);
    assert(c == i - p);
    assert(t.take(c) =~= s.subrange(p, i));
    assert(t.skip(c + pat.len()) =~= s.skip(i + pat.len()));
}

proof fn lemma_split_last(s: Seq<char>, pat: Seq<char>, p: int)
    requires
        pat.len() > 0,
        0 <= p <= s.len(),
        absent_from(s, pat, p),
    ensures
        split_on(s.skip(p), pat) == seq![s.skip(p)],
{
    let t = s.skip(p);
    if exists|i: int| first_at(t, pat, 0, i) {
        let i = choose|i: int| first_at(t, pat, 0, i);
        lemma_occurs_skip(s, pat, p, i);
    }
}

/// Splits `s` on `pat`.
pub fn split_text(s: &Vec<char>, pat: &Vec<char>) -> (r: Vec<Vec<char>>)
    ensures
        rows(r@) == split_on(s@, pat@),
{
    let mut out: Vec<Vec<char>> = Vec::new();
    if pat.len() == 0 {
        out.push(Vec::new());
        let mut i: usize = 0;
        while i < s.len()
            invariant
                i <= s.len(),
                rows(out@) == seq![Seq::<char>::empty()] + s@.take(i as int).map_values(
                    |c: char| seq![c],
                ),
            decreases s.len() - i,
        {
            let ghost before = rows(out@);
            let mut one: Vec<char> = Vec::new();
            one.push(s[i]);
            out.push(one);
            assert(rows(out@) =~= before.push(seq![s@[i as int]]));
            assert(s@.take(i + 1) =~= s@.take(i as int).push(s@[i as int]));
            assert(rows(out@) =~= seq![Seq::<char>::empty()] + s@.take(i + 1).map_values(
                |c: char| seq![c],
            ));
            i += 1;
        }
        let ghost before = rows(out@);
        out.push(Vec::new());
        assert(s@.take(i as int) =~= s@);
        assert(rows(out@) =~= before.push(Seq::<char>::empty()));
        assert(rows(out@) =~= split_on(s@, pat@));
        return out;
    }
    let mut pos: usize = 0;
    assert(s@.skip(0) =~= s@);
    assert(rows(out@) =~= Seq::<Seq<char>>::empty());
    loop
        invariant
            pat.len() > 0,
            pos <= s.len(),
            split_on(s@, pat@) == rows(out@) + split_on(s@.skip(pos as int), pat@),
        decreases s.len() - pos,
    {
        let ghost before = rows(out@);
        match find_from(s, pat, pos) {
            Some(i) => {
                proof {
                    lemma_split_step(s@, pat@, pos as int, i as int);
                }
                out.push(slice_chars(s, pos, i));
                assert(rows(out@) =~= before.push(s@.subrange(pos as int, i as int)));
                pos = i + pat.len();
            },
            None => {
                proof {
                    lemma_split_last(s@, pat@, pos as int);
                }
                out.push(slice_chars(s, pos, s.len()));
                assert(s@.subrange(pos as int, s.len() as int) =~= s@.skip(pos as int));
                assert(rows(out@) =~= before.push(s@.skip(pos as int)));
                return out;
            },
        }
    }
}

/// Whether `c` is white space: one of the characters that have the Unicode
/// property `White_Space`. These are the controls from tab to carriage
/// return, the space, the next-line control, the no-break space, the Ogham
/// space mark, the spaces from en quad to hair space, the line and the
/// paragraph separator, the narrow no-break space, the medium mathematical
/// space and the ideographic space.
pub open spec fn is_whitespace(c: char) -> bool {
    let u = c as u32;
    ||| 0x09 <= u <= 0x0D
    ||| u == 0x20
    ||| u == 0x85
    ||| u == 0xA0
    ||| u == 0x1680
    ||| 0x2000 <= u <= 0x200A
    ||| u == 0x2028
    ||| u == 0x2029
    ||| u == 0x202F
    ||| u == 0x205F
    ||| u == 0x3000
}

/// Whether `c` is white space.
pub fn is_space(c: char) -> (r: bool)
    ensures
        r == is_whitespace(c),
{
    let u: u32 = c as u32;
    (0x09 <= u && u <= 0x0D) || u == 0x20 || u == 0x85 || u == 0xA0 || u == 0x1680 || (0x2000 <= u
        && u <= 0x200A) || u == 0x2028 || u == 0x2029 || u == 0x202F || u == 0x205F || u == 0x3000
}

/// Number of white-space characters at the start of `s`.
pub open spec fn lead(s: Seq<char>) -> nat
    decreases s.len(),
{
    if s.len() == 0 || !is_whitespace(s[0]) {
        0
    } else {
        1 + lead(s.drop_first())
    }
}

/// Number of white-space characters at the end of `s`.
pub open spec fn trail(s: Seq<char>) -> nat
    decreases s.len(),
{
    if s.len() == 0 || !is_whitespace(s.last()) {
        0
    } else {
        1 + trail(s.drop_last())
    }
}

/// `s` without the white space at its start and at its end.
pub open spec fn trimmed(s: Seq<char>) -> Seq<char> {
    let a = s.skip(lead(s) as int);
    a.take(a.len() - trail(a))
}

/// The white space at the start is part of the text.
pub proof fn lemma_lead_bound(s: Seq<char>)
    ensures
        lead(s) <= s.len(),
    decreases s.len(),
{
    if s.len() > 0 && is_whitespace(s[0]) {
        lemma_lead_bound(s.drop_first());
    }
}

/// The white space at the end is part of the text.
pub proof fn lemma_trail_bound(s: Seq<char>)
    ensures
        trail(s) <= s.len(),
    decreases s.len(),
{
    if s.len() > 0 && is_whitespace(s.last()) {
        lemma_trail_bound(s.drop_last());
    }
}

/// Trimming never makes a text longer.
pub proof fn lemma_trimmed_len(s: Seq<char>)
    ensures
        trimmed(s).len() <= s.len(),
{
    lemma_lead_bound(s);
    lemma_trail_bound(s.skip(lead(s) as int));
}

proof fn lemma_lead_at(s: Seq<char>, k: int)
    requires
        0 <= k <= s.len(),
        forall|j: int| 0 <= j < k ==> is_whitespace(#[trigger] s[j]),
        k < s.len() ==> !is_whitespace(s[k]),
    ensures
        lead(s) == k,
    decreases s.len(),
{
    if k > 0 {
        assert(is_whitespace(s[0]));
        let rest = s.drop_first();
        assert forall|j: int| 0 <= j < k - 1 implies is_whitespace(#[trigger] rest[j]) by {
            assert(rest[j] == s[j + 1]);
        }
        if k < s.len() {
            assert(rest[k - 1] == s[k]);
        }
        lemma_lead_at(rest, k - 1);
    }
}

proof fn lemma_trail_at(s: Seq<char>, k: int)
    requires
        0 <= k <= s.len(),
        forall|j: int| s.len() - k <= j < s.len() ==> is_whitespace(#[trigger] s[j]),
        k < s.len() ==> !is_whitespace(s[s.len() - 1 - k]),
    ensures
        trail(s) == k,
    decreases s.len(),
{
    if k > 0 {
        assert(is_whitespace(s[s.len() - 1]));
        let rest = s.drop_last();
        assert forall|j: int| rest.len() - (k - 1) <= j < rest.len() implies is_whitespace(
            #[trigger] rest[j],
        ) by {
            assert(rest[j] == s[j]);
        }
        if k < s.len() {
            assert(rest[rest.len() - 1 - (k - 1)] == s[s.len() - 1 - k]);
        }
        lemma_trail_at(rest, k - 1);
    }
}

/// `s` without the white space at its ends.
pub fn trim_chars(s: &Vec<char>) -> (r: Vec<char>)
    ensures
        r@ == trimmed(s@),
{
    let mut a: usize = 0;
    while a < s.len() && is_space(s[a])
        invariant
            a <= s.len(),
            forall|j: int| 0 <= j < a ==> is_whitespace(#[trigger] s@[j]),
        decreases s.len() - a,
    {
        a += 1;
    }
    proof {
        lemma_lead_at(s@, a as int);
    }
    let ghost rest = s@.skip(a as int);
    let mut b: usize = s.len();
    while b > a && is_space(s[b - 1])
        invariant
            a <= b <= s.len(),
            forall|j: int| b <= j < s.len() ==> is_whitespace(#[trigger] s@[j]),
        decreases b,
    {
        b -= 1;
    }
    proof {
        assert forall|j: int| rest.len() - (s.len() - b) <= j < rest.len() implies is_whitespace(
            #[trigger] rest[j],
        ) by {
            assert(rest[j] == s@[j + a]);
        }
        if s.len() - b < rest.len() {
            assert(rest[rest.len() - 1 - (s.len() - b)] == s@[b - 1]);
        }
        lemma_trail_at(rest, s.len() - b);
        assert(rest.take(rest.len() - (s.len() - b)) =~= s@.subrange(a as int, b as int));
    }
    slice_chars(s, a, b)
}

} // verus!

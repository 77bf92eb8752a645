//! Splitting along a cascade of delimiters, so that pieces end where the text
//! itself pauses.

use crate::document::splitter::{
    default_splitter, fixed_width, lemma_fixed_width_bounded, Splitter,
};
use crate::text::{
    from_chars, lemma_trimmed_len, rows, split_on, split_text, texts, to_chars, trim_chars,
    trimmed,
};
use vstd::prelude::*;

verus! {

/// The delimiters to split by, from the coarsest to the finest.
#[derive(Debug, PartialEq, Eq)]
pub struct RecursiveCharacterSplitter {
    pub split_by: Vec<String>,
}

/// What becomes of one segment: it is kept, trimmed, if it has no more than
/// `len` characters; else it is split by the delimiters that remain, or cut at
/// fixed width where none remains.
pub open spec fn settle(seg: Seq<char>, rest: Seq<Seq<char>>, len: nat, overlapping: nat) -> Seq<
    Seq<char>,
>
    decreases rest.len(), 0nat, 1nat,
{
    if seg.len() <= len {
        seq![trimmed(seg)]
    } else if rest.len() == 0 {
        fixed_width(seg, len, overlapping)
    } else {
        cascade(seg, rest, len, overlapping)
    }
}

/// What becomes of the first `n` segments, in order.
pub open spec fn settle_all(
    segs: Seq<Seq<char>>,
    rest: Seq<Seq<char>>,
    len: nat,
    overlapping: nat,
    n: nat,
) -> Seq<Seq<char>>
    decreases rest.len(), 1nat, n,
{
    if n == 0 || n > segs.len() {
        Seq::empty()
    } else {
        settle_all(segs, rest, len, overlapping, (n - 1) as nat) + settle(
            segs[n - 1],
            rest,
            len,
            overlapping,
        )
    }
}

/// The pieces of `text`: it is split on the last, finest of `delims`, and
/// each segment is settled with the delimiters before that one.
pub open spec fn cascade(text: Seq<char>, delims: Seq<Seq<char>>, len: nat, overlapping: nat) -> Seq<
    Seq<char>,
>
    decreases delims.len(), 0nat, 0nat,
{
    if delims.len() == 0 {
        Seq::empty()
    } else {
        let segs = split_on(text, delims.last());
        settle_all(segs, delims.drop_last(), len, overlapping, segs.len())
    }
}

/// The pieces of `text` under the delimiters `delims`. Without any delimiter
/// the text is one segment.
pub open spec fn recursive_split(
    text: Seq<char>,
    delims: Seq<Seq<char>>,
    len: nat,
    overlapping: nat,
) -> Seq<Seq<char>> {
    if delims.len() == 0 {
        settle(text, delims, len, overlapping)
    } else {
        cascade(text, delims, len, overlapping)
    }
}

/// No piece of a settled segment is longer than `len` characters.
pub proof fn lemma_settle_bounded(
    seg: Seq<char>,
    rest: Seq<Seq<char>>,
    len: nat,
    overlapping: nat,
    i: int,
)
    requires
        overlapping < len,
        0 <= i < settle(seg, rest, len, overlapping).len(),
    ensures
        settle(seg, rest, len, overlapping)[i].len() <= len,
    decreases rest.len(), 0nat, 1nat,
{
    if seg.len() <= len {
        lemma_trimmed_len(seg);
    } else if rest.len() == 0 {
        lemma_fixed_width_bounded(seg, len, overlapping, i);
    } else {
        lemma_cascade_bounded(seg, rest, len, overlapping, i);
    }
}

/// No piece of a run of settled segments is longer than `len` characters.
pub proof fn lemma_settle_all_bounded(
    segs: Seq<Seq<char>>,
    rest: Seq<Seq<char>>,
    len: nat,
    overlapping: nat,
    n: nat,
    i: int,
)
    requires
        overlapping < len,
        0 <= i < settle_all(segs, rest, len, overlapping, n).len(),
    ensures
        settle_all(segs, rest, len, overlapping, n)[i].len() <= len,
    decreases rest.len(), 1nat, n,
{
    if n == 0 || n > segs.len() {
    } else {
        let before = settle_all(segs, rest, len, overlapping, (n - 1) as nat);
        if i < before.len() {
            lemma_settle_all_bounded(segs, rest, len, overlapping, (n - 1) as nat, i);
        } else {
            lemma_settle_bounded(segs[n - 1], rest, len, overlapping, i - before.len());
        }
    }
}

/// No piece of a cascade is longer than `len` characters.
pub proof fn lemma_cascade_bounded(
    text: Seq<char>,
    delims: Seq<Seq<char>>,
    len: nat,
    overlapping: nat,
    i: int,
)
    requires
        overlapping < len,
        0 <= i < cascade(text, delims, len, overlapping).len(),
    ensures
        cascade(text, delims, len, overlapping)[i].len() <= len,
    decreases delims.len(), 0nat, 0nat,
{
    if delims.len() > 0 {
        let segs = split_on(text, delims.last());
        lemma_settle_all_bounded(segs, delims.drop_last(), len, overlapping, segs.len(), i);
    }
}

/// No piece that the splitter gives is longer than `len` characters.
pub proof fn lemma_recursive_split_bounded(
    text: Seq<char>,
    delims: Seq<Seq<char>>,
    len: nat,
    overlapping: nat,
    i: int,
)
    requires
        overlapping < len,
        0 <= i < recursive_split(text, delims, len, overlapping).len(),
    ensures
        recursive_split(text, delims, len, overlapping)[i].len() <= len,
{
    if delims.len() == 0 {
        lemma_settle_bounded(text, delims, len, overlapping, i);
    } else {
        lemma_cascade_bounded(text, delims, len, overlapping, i);
    }
}

/// Appends the views of `more` to those of `out`.
fn extend(out: &mut Vec<String>, more: Vec<String>)
    ensures
        texts(final(out)@) == texts(old(out)@) + texts(more@),
{
    let mut more = more;
    let ghost a = texts(out@);
    let ghost b = texts(more@);
    out.append(&mut more);
    assert(texts(out@) =~= a + b);
}

/// Settles one segment with the first `depth` delimiters.
fn settle_segment(
    seg: &Vec<char>,
    delims: &Vec<Vec<char>>,
    depth: usize,
    len: usize,
    overlapping: usize,
) -> (r: Vec<String>)
    requires
        overlapping < len,
        depth <= delims.len(),
    ensures
        texts(r@) == settle(seg@, rows(delims@).take(depth as int), len as nat, overlapping as nat),
    decreases depth, 1nat,
{
    if seg.len() <= len {
        let mut out: Vec<String> = Vec::new();
        out.push(from_chars(&trim_chars(seg)));
        assert(texts(out@) =~= seq![trimmed(seg@)]);
        out
    } else if depth == 0 {
        default_splitter(from_chars(seg), len, overlapping)
    } else {
        split_cascade(seg, delims, depth, len, overlapping)
    }
}

/// Splits `text` on the last of the first `depth` delimiters and settles the
/// segments with the delimiters before it.
fn split_cascade(
    text: &Vec<char>,
    delims: &Vec<Vec<char>>,
    depth: usize,
    len: usize,
    overlapping: usize,
) -> (r: Vec<String>)
    requires
        overlapping < len,
        0 < depth <= delims.len(),
    ensures
        texts(r@) == cascade(text@, rows(delims@).take(depth as int), len as nat, overlapping as nat),
    decreases depth, 0nat,
{
    let ghost ds = rows(delims@).take(depth as int);
    let ghost rest = rows(delims@).take(depth - 1);
    assert(ds.last() == delims@[depth - 1]@);
    assert(ds.drop_last() =~= rest);
    let segs = split_text(text, &delims[depth - 1]);
    let ghost sv = rows(segs@);
    let mut out: Vec<String> = Vec::new();
    let mut i: usize = 0;
    assert(texts(out@) =~= settle_all(sv, rest, len as nat, overlapping as nat, 0));
    while i < segs.len()
        invariant
            i <= segs.len(),
            overlapping < len,
            0 < depth <= delims.len(),
            sv == rows(segs@),
            rest == rows(delims@).take(depth - 1),
            texts(out@) == settle_all(sv, rest, len as nat, overlapping as nat, i as nat),
        decreases segs.len() - i,
    {
        assert(sv[i as int] == segs@[i as int]@);
        let more = settle_segment(&segs[i], delims, depth - 1, len, overlapping);
        extend(&mut out, more);
        i += 1;
    }
    out
}

impl Default for RecursiveCharacterSplitter {
    /// Blank line, line break, full stop, ideographic full stop, space.
    fn default() -> (r: Self)
        ensures
            texts(r.split_by@) == seq!["\n\n"@, "\n"@, "."@, "。"@, " "@],
    {
        let mut split_by: Vec<String> = Vec::new();
        split_by.push("\n\n".to_owned());
        split_by.push("\n".to_owned());
        split_by.push(".".to_owned());
        split_by.push("。".to_owned());
        split_by.push(" ".to_owned());
        assert(texts(split_by@) =~= seq!["\n\n"@, "\n"@, "."@, "。"@, " "@]);
        RecursiveCharacterSplitter { split_by }
    }
}

impl Splitter for RecursiveCharacterSplitter {
    open spec fn split_spec(&self, text: Seq<char>, len: nat, overlapping: nat) -> Seq<Seq<char>> {
        recursive_split(text, texts(self.split_by@), len, overlapping)
    }

    fn split(&self, text: String, len: usize, overlapping: usize) -> (r: Vec<String>) {
        let chars = to_chars(text.as_str());
        let mut delims: Vec<Vec<char>> = Vec::new();
        let mut i: usize = 0;
        while i < self.split_by.len()
            invariant
                i <= self.split_by.len(),
                rows(delims@) == texts(self.split_by@).take(i as int),
            decreases self.split_by.len() - i,
        {
            let ghost before = rows(delims@);
            let d = to_chars(self.split_by[i].as_str());
            delims.push(d);
            assert(rows(delims@) =~= before.push(self.split_by@[i as int]@));
            assert(texts(self.split_by@).take(i + 1) =~= texts(self.split_by@).take(
                i as int,
            ).push(self.split_by@[i as int]@));
            i += 1;
        }
        assert(texts(self.split_by@).take(i as int) =~= texts(self.split_by@));
        assert(rows(delims@).take(delims.len() as int) =~= rows(delims@));
        assert(self.split_spec(text@, len as nat, overlapping as nat) == recursive_split(
            text@,
            texts(self.split_by@),
            len as nat,
            overlapping as nat,
        ));
        let r = if delims.len() == 0 {
            assert(rows(delims@).take(0) =~= texts(self.split_by@));
            settle_segment(&chars, &delims, 0, len, overlapping)
        } else {
            split_cascade(&chars, &delims, delims.len(), len, overlapping)
        };
        proof {
            assert forall|i: int| 0 <= i < r.len() implies (#[trigger] r[i])@.len() <= len by {
                assert(texts(r@)[i] == r[i]@);
                lemma_recursive_split_bounded(
                    text@,
                    texts(self.split_by@),
                    len as nat,
                    overlapping as nat,
                    i,
                );
            }
        }
        r
    }
}

} // verus!

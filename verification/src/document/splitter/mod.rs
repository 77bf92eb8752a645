//! Splitting of texts into pieces of bounded length.

pub mod markdown_splitter;
pub mod recursive_character_splitter;

use crate::document::loader::{documents_view, Document, DocumentView, Meta, MetaView};
use crate::text::{
    byte_len, byte_length, from_chars, lemma_byte_len_bound, slice_chars, texts, to_chars,
};
use vstd::prelude::*;
use vstd::string::StringExecFns;

verus! {

/// The windows of `len` characters over `t` that start at `start` and then
/// every `step` characters, as long as a whole window is left; what is left
/// after the last whole window's start is a last, shorter piece. The step is
/// at least one and at most `len`.
pub open spec fn windows(t: Seq<char>, len: nat, step: nat, start: nat) -> Seq<Seq<char>>
    decreases t.len() - start,
{
    if step == 0 || step > len {
        Seq::empty()
    } else if start + len <= t.len() {
        seq![t.subrange(start as int, (start + len) as int)] + windows(t, len, step, start + step)
    } else if start < t.len() {
        seq![t.subrange(start as int, t.len() as int)]
    } else {
        Seq::empty()
    }
}

/// A text that takes no more than `len` bytes stays whole. A longer one is cut
/// into windows of `len` characters, each starting `len - overlapping`
/// characters after the one before.
pub open spec fn fixed_width(text: Seq<char>, len: nat, overlapping: nat) -> Seq<Seq<char>> {
    if byte_len(text) <= len {
        seq![text]
    } else {
        windows(text, len, (len - overlapping) as nat, 0)
    }
}

/// No window is longer than `len`.
pub proof fn lemma_windows_bounded(t: Seq<char>, len: nat, step: nat, start: nat, i: int)
    requires
        0 <= i < windows(t, len, step, start).len(),
    ensures
        windows(t, len, step, start)[i].len() <= len,
    decreases t.len() - start,
{
    if 0 < step <= len && start + len <= t.len() {
        if i > 0 {
            lemma_windows_bounded(t, len, step, start + step, i - 1);
        }
    }
}

/// The `i`-th window starts `i * step` characters after the first one and
/// runs for `len` characters, or to the end of the text.
pub proof fn lemma_windows_at(t: Seq<char>, len: nat, step: nat, start: nat, i: int)
    requires
        0 <= i < windows(t, len, step, start).len(),
    ensures
        start + i * step < t.len(),
        windows(t, len, step, start)[i] == t.subrange(
            start + i * step,
            if start + i * step + len <= t.len() {
                start + i * step + len
            } else {
                t.len() as int
            },
        ),
        i + 1 < windows(t, len, step, start).len() ==> start + i * step + len <= t.len(),
    decreases t.len() - start,
{
    if 0 < step <= len && start + len <= t.len() {
        if i > 0 {
            lemma_windows_at(t, len, step, start + step, i - 1);
            assert(start + step + (i - 1) * step == start + i * step) by (nonlinear_arith);
        } else {
            assert(start + 0 * step == start) by (nonlinear_arith);
        }
    } else {
        assert(start + 0 * step == start) by (nonlinear_arith);
    }
}

/// No piece of `fixed_width` is longer than `len` characters.
pub proof fn lemma_fixed_width_bounded(text: Seq<char>, len: nat, overlapping: nat, i: int)
    requires
        overlapping < len,
        0 <= i < fixed_width(text, len, overlapping).len(),
    ensures
        fixed_width(text, len, overlapping)[i].len() <= len,
{
    if byte_len(text) <= len {
        lemma_byte_len_bound(text);
    } else {
        lemma_windows_bounded(text, len, (len - overlapping) as nat, 0, i);
    }
}

/// Two windows that follow each other share the characters between the start
/// of the second and the end of the first: `overlapping` of them, or fewer
/// where the second is the short last piece.
pub proof fn lemma_windows_overlap(text: Seq<char>, len: nat, overlapping: nat, i: int)
    requires
        overlapping < len,
        0 <= i,
        i + 1 < windows(text, len, (len - overlapping) as nat, 0).len(),
    ensures
        ({
            let w = windows(text, len, (len - overlapping) as nat, 0);
            let shared = if w[i + 1].len() < overlapping {
                w[i + 1].len()
            } else {
                overlapping
            };
            &&& w[i].len() == len
            &&& shared <= overlapping
            &&& w[i].skip(len - overlapping).take(shared as int) == w[i + 1].take(shared as int)
        }),
{
    let step = (len - overlapping) as nat;
    let w = windows(text, len, step, 0);
    lemma_windows_at(text, len, step, 0, i);
    lemma_windows_at(text, len, step, 0, i + 1);
    assert((i + 1) * step == i * step + step) by (nonlinear_arith);
    let shared = if w[i + 1].len() < overlapping {
        w[i + 1].len()
    } else {
        overlapping
    };
    assert(w[i].skip(len - overlapping).take(shared as int) =~= w[i + 1].take(shared as int));
}

/// Cuts `text` into pieces of at most `len` characters: whole if it takes no
/// more than `len` bytes, else in windows that overlap by `overlapping`
/// characters.
pub fn default_splitter(text: String, len: usize, overlapping: usize) -> (r: Vec<String>)
    requires
        overlapping < len,
    ensures
        texts(r@) == fixed_width(text@, len as nat, overlapping as nat),
        forall|i: int| 0 <= i < r.len() ==> (#[trigger] r[i])@.len() <= len,
{
    let r = cut_fixed(text, len, overlapping);
    proof {
        assert forall|i: int| 0 <= i < r.len() implies (#[trigger] r[i])@.len() <= len by {
            assert(texts(r@)[i] == r[i]@);
            lemma_fixed_width_bounded(text@, len as nat, overlapping as nat, i);
        }
    }
    r
}

fn cut_fixed(text: String, len: usize, overlapping: usize) -> (r: Vec<String>)
    requires
        overlapping < len,
    ensures
        texts(r@) == fixed_width(text@, len as nat, overlapping as nat),
{
    let mut result: Vec<String> = Vec::new();
    if byte_length(text.as_str()) <= len {
        result.push(text);
        assert(texts(result@) =~= seq![text@]);
        return result;
    }
    let chars = to_chars(text.as_str());
    let step: usize = len - overlapping;
    let n: usize = chars.len();
    let mut start: usize = 0;
    assert(texts(result@) =~= Seq::<Seq<char>>::empty());
    while start <= n && len <= n - start
        invariant
            start <= n,
            n == chars.len(),
            0 < step <= len,
            windows(chars@, len as nat, step as nat, 0) == texts(result@) + windows(
                chars@,
                len as nat,
                step as nat,
                start as nat,
            ),
        decreases n - start,
    {
        let ghost before = texts(result@);
        let piece = slice_chars(&chars, start, start + len);
        result.push(from_chars(&piece));
        assert(texts(result@) =~= before.push(chars@.subrange(start as int, start + len)));
        start += step;
    }
    if start < n {
        let ghost before = texts(result@);
        let piece = slice_chars(&chars, start, n);
        result.push(from_chars(&piece));
        assert(texts(result@) =~= before.push(chars@.subrange(start as int, n as int)));
    }
    result
}

/// The documents that the first `n` of `docs` merge into: a document joins the
/// one before it as long as the two together take no more than `len +
/// overlapping` bytes. The joined document keeps its own origin, with all its
/// attributes, and records that of the one that joined it last.
pub open spec fn merged(docs: Seq<DocumentView>, len: nat, overlapping: nat, n: nat) -> Seq<
    DocumentView,
>
    decreases n,
{
    if n == 0 || n > docs.len() {
        Seq::empty()
    } else {
        let acc = merged(docs, len, overlapping, (n - 1) as nat);
        let d = docs[n - 1];
        if acc.len() == 0 {
            seq![d]
        } else if byte_len(acc.last().text) + byte_len(d.text) <= len + overlapping {
            acc.drop_last().push(
                DocumentView {
                    text: acc.last().text + d.text,
                    meta: MetaView {
                        tag_stack: acc.last().meta.tag_stack,
                        merge: Some(Box::new(d.meta)),
                        other: acc.last().meta.other,
                    },
                },
            )
        } else {
            acc.push(d)
        }
    }
}

/// The pieces of one document, each with the document's origin.
pub open spec fn pieces_of(d: DocumentView, parts: Seq<Seq<char>>) -> Seq<DocumentView> {
    parts.map_values(|t: Seq<char>| DocumentView { text: t, meta: d.meta })
}

/// The first `n` of `docs`, each whole if it takes no more than `len` bytes,
/// else cut as `cut` says.
pub open spec fn resplit(
    cut: spec_fn(Seq<char>) -> Seq<Seq<char>>,
    docs: Seq<DocumentView>,
    len: nat,
    n: nat,
) -> Seq<DocumentView>
    decreases n,
{
    if n == 0 || n > docs.len() {
        Seq::empty()
    } else {
        let acc = resplit(cut, docs, len, (n - 1) as nat);
        let d = docs[n - 1];
        if byte_len(d.text) <= len {
            acc.push(d)
        } else {
            acc + pieces_of(d, cut(d.text))
        }
    }
}

/// Two ways of cutting that agree on every text give the same documents.
pub proof fn lemma_resplit_same(
    c1: spec_fn(Seq<char>) -> Seq<Seq<char>>,
    c2: spec_fn(Seq<char>) -> Seq<Seq<char>>,
    docs: Seq<DocumentView>,
    len: nat,
    n: nat,
)
    requires
        forall|t: Seq<char>| #[trigger] c1(t) == c2(t),
    ensures
        resplit(c1, docs, len, n) == resplit(c2, docs, len, n),
    decreases n,
{
    if n > 0 && n <= docs.len() {
        lemma_resplit_same(c1, c2, docs, len, (n - 1) as nat);
    }
}

/// Merges neighbouring documents as long as they stay within `len +
/// overlapping` bytes.
pub fn merge_docs(docs: Vec<Document>, len: usize, overlapping: usize) -> (r: Vec<Document>)
    ensures
        documents_view(r@) == merged(
            documents_view(docs@),
            len as nat,
            overlapping as nat,
            docs.len() as nat,
        ),
{
    let ghost dv = documents_view(docs@);
    let mut out: Vec<Document> = Vec::new();
    let mut i: usize = 0;
    assert(documents_view(out@) =~= merged(dv, len as nat, overlapping as nat, 0));
    while i < docs.len()
        invariant
            i <= docs.len(),
            dv == documents_view(docs@),
            documents_view(out@) == merged(dv, len as nat, overlapping as nat, i as nat),
        decreases docs.len() - i,
    {
        let ghost before = documents_view(out@);
        let d = docs[i].clone();
        assert(d@ == dv[i as int]);
        if out.len() == 0 {
            out.push(d);
            assert(documents_view(out@) =~= seq![d@]);
        } else {
            let last_len: usize = byte_length(out[out.len() - 1].text.as_str());
            let this_len: usize = byte_length(d.text.as_str());
            assert(before.last() == out@[out.len() - 1]@);
            if last_len as u128 + this_len as u128 <= len as u128 + overlapping as u128 {
                let last = out.pop().unwrap();
                assert(documents_view(out@) =~= before.drop_last());
                let joined = Document {
                    text: last.text.concat(d.text.as_str()),
                    meta: Meta {
                        tag_stack: last.meta.tag_stack,
                        merge: Some(Box::new(d.meta)),
                        other: last.meta.other,
                    },
                };
                let ghost shortened = documents_view(out@);
                out.push(joined);
                assert(documents_view(out@) =~= shortened.push(joined@));
            } else {
                out.push(d);
                assert(documents_view(out@) =~= before.push(d@));
            }
        }
        i += 1;
    }
    out
}

/// What cuts texts into pieces.
pub trait Splitter {
    /// The pieces of `text`.
    spec fn split_spec(&self, text: Seq<char>, len: nat, overlapping: nat) -> Seq<Seq<char>>;

    /// Cuts `text` into pieces of at most `len` characters. `overlapping`,
    /// which must be less than `len`, is how many characters two pieces may
    /// share where the text is cut at fixed width.
    fn split(&self, text: String, len: usize, overlapping: usize) -> (r: Vec<String>)
        requires
            overlapping < len,
        ensures
            texts(r@) == self.split_spec(text@, len as nat, overlapping as nat),
            forall|i: int| 0 <= i < r.len() ==> (#[trigger] r[i])@.len() <= len,
    ;

    /// Merges short neighbours among `docs`, then cuts every document that
    /// takes more than `len` bytes; the pieces have the origin of the
    /// document they were cut from.
    fn split_docs(&self, docs: Vec<Document>, len: usize, overlapping: usize) -> (r: Vec<Document>)
        requires
            overlapping < len,
        ensures
            ({
                let m = merged(
                    documents_view(docs@),
                    len as nat,
                    overlapping as nat,
                    docs.len() as nat,
                );
                documents_view(r@) == resplit(
                    |t: Seq<char>| self.split_spec(t, len as nat, overlapping as nat),
                    m,
                    len as nat,
                    m.len(),
                )
            }),
    {
        let m = merge_docs(docs, len, overlapping);
        let ghost mv = documents_view(m@);
        let ghost cut = |t: Seq<char>| self.split_spec(t, len as nat, overlapping as nat);
        let mut out: Vec<Document> = Vec::new();
        let mut i: usize = 0;
        assert(documents_view(out@) =~= resplit(cut, mv, len as nat, 0));
        while i < m.len()
            invariant
                i <= m.len(),
                overlapping < len,
                mv == documents_view(m@),
                cut == |t: Seq<char>| self.split_spec(t, len as nat, overlapping as nat),
                documents_view(out@) == resplit(cut, mv, len as nat, i as nat),
            decreases m.len() - i,
        {
            let ghost before = documents_view(out@);
            let d = m[i].clone();
            assert(d@ == mv[i as int]);
            if byte_length(d.text.as_str()) <= len {
                out.push(d);
                assert(documents_view(out@) =~= before.push(d@));
            } else {
                let parts = self.split(d.text, len, overlapping);
                let ghost pv = pieces_of(d@, texts(parts@));
                let mut k: usize = 0;
                while k < parts.len()
                    invariant
                        k <= parts.len(),
                        pv == pieces_of(d@, texts(parts@)),
                        documents_view(out@) == before + pv.take(k as int),
                    decreases parts.len() - k,
                {
                    let ghost sofar = documents_view(out@);
                    let piece = Document { text: parts[k].clone(), meta: d.meta.clone() };
                    out.push(piece);
                    assert(piece@ == pv[k as int]);
                    assert(documents_view(out@) =~= sofar.push(piece@));
                    assert(pv.take(k + 1) =~= pv.take(k as int).push(pv[k as int]));
                    k += 1;
                }
                assert(pv.take(k as int) =~= pv);
            }
            i += 1;
        }
        proof {
            lemma_resplit_same(
                cut,
                |t: Seq<char>| self.split_spec(t, len as nat, overlapping as nat),
                mv,
                len as nat,
                mv.len(),
            );
        }
        out
    }
}

} // verus!

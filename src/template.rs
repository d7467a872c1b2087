use vstd::prelude::*;
use vstd::string::*;

verus! {

/// A piece of a text template: literal text, or the name of a variable between braces.
#[derive(Clone, Debug, PartialEq, Eq)]
pub enum Chunk {
    Text(String),
    Variable(String),
}

/// A chunk as characters.
pub enum ChunkView {
    Text(Seq<char>),
    Variable(Seq<char>),
}

impl View for Chunk {
    type V = ChunkView;

    open spec fn view(&self) -> ChunkView {
        match self {
            Chunk::Text(s) => ChunkView::Text(s@),
            Chunk::Variable(s) => ChunkView::Variable(s@),
        }
    }
}

/// Index of the first `c` in `s`, or the length of `s` when there is none.
pub open spec fn first_index(s: Seq<char>, c: char) -> nat
    decreases s.len(),
{
    if s.len() == 0 {
        0
    } else if s[0] == c {
        0
    } else {
        1 + first_index(s.drop_first(), c)
    }
}

/// The chunks of a template. Text runs up to each `{`; the variable runs from there to
/// the next `}`, and the rest of the template is read the same way. Trailing text
/// becomes a last chunk. A `{` without a closing `}` ends the reading: the text before
/// it, and then the whole remaining template, become text chunks.
pub open spec fn template_chunks(t: Seq<char>) -> Seq<ChunkView>
    decreases t.len(),
{
    let i = first_index(t, '{');
    if i >= t.len() {
        if t.len() > 0 {
            seq![ChunkView::Text(t)]
        } else {
            seq![]
        }
    } else {
        let rest = t.subrange(i + 1 as int, t.len() as int);
        let j = first_index(rest, '}');
        if j >= rest.len() {
            seq![ChunkView::Text(t.subrange(0, i as int)), ChunkView::Text(t)]
        } else {
            seq![
                ChunkView::Text(t.subrange(0, i as int)),
                ChunkView::Variable(rest.subrange(0, j as int)),
            ] + template_chunks(rest.subrange(j + 1 as int, rest.len() as int))
        }
    }
}

pub proof fn lemma_first_index(s: Seq<char>, c: char, i: int)
    requires
        0 <= i <= s.len(),
        forall|k: int| 0 <= k < i ==> s[k] != c,
        i == s.len() || s[i] == c,
    ensures
        first_index(s, c) == i,
    decreases s.len(),
{
    if s.len() > 0 && i > 0 {
        let t = s.drop_first();
        assert forall|k: int| 0 <= k < i - 1 implies t[k] != c by {
            assert(t[k] == s[k + 1]);
        }
        lemma_first_index(t, c, i - 1);
    }
}

/// Index of the first `c` in `t` at or after `from`, or the length of `t`.
pub(crate) fn find_char(t: &str, len: usize, from: usize, c: char) -> (i: usize)
    requires
        len == t@.len(),
        from <= len,
    ensures
        from <= i <= len,
        first_index(t@.subrange(from as int, len as int), c) == i - from,
{
    let mut i = from;
    while i < len && t.get_char(i) != c
        invariant
            from <= i <= len,
            len == t@.len(),
            forall|k: int| from <= k < i ==> t@[k] != c,
        decreases len - i,
    {
        i += 1;
    }
    proof {
        let s = t@.subrange(from as int, len as int);
        assert forall|k: int| 0 <= k < i - from implies s[k] != c by {
            assert(s[k] == t@[from + k]);
        }
        lemma_first_index(s, c, i - from);
    }
    i
}

/// Splits a template into text and variable chunks.
pub fn template_to_chunks(template: &str) -> (r: Vec<Chunk>)
    ensures
        r@.map_values(|c: Chunk| c@) == template_chunks(template@),
{
    let ghost t = template@;
    let len = template.unicode_len();
    let mut chunks: Vec<Chunk> = Vec::new();
    let mut p: usize = 0;
    proof {
        assert(t.subrange(0, len as int) =~= t);
        assert(chunks@.map_values(|c: Chunk| c@) =~= Seq::<ChunkView>::empty());
        assert(Seq::<ChunkView>::empty() + template_chunks(t) =~= template_chunks(t));
    }
    while p < len
        invariant
            p <= len,
            len == t.len(),
            t == template@,
            chunks@.map_values(|c: Chunk| c@) + template_chunks(t.subrange(p as int, len as int))
                == template_chunks(t),
        decreases len - p,
    {
        let ghost s = t.subrange(p as int, len as int);
        let ghost before = chunks@.map_values(|c: Chunk| c@);
        let i = find_char(template, len, p, '{');
        if i == len {
            let text = template.substring_char(p, len).to_string();
            chunks.push(Chunk::Text(text));
            proof {
                assert(chunks@.map_values(|c: Chunk| c@) =~= before.push(ChunkView::Text(s)));
                assert(t.subrange(len as int, len as int) =~= Seq::<char>::empty());
                assert(template_chunks(Seq::<char>::empty()) =~= Seq::<ChunkView>::empty());
                assert(before + seq![ChunkView::Text(s)] =~= before.push(ChunkView::Text(s)));
            }
            p = len;
        } else {
            let j = find_char(template, len, i + 1, '}');
            proof {
                let rest = s.subrange(i - p + 1, s.len() as int);
                assert(rest =~= t.subrange(i + 1, len as int));
                assert(s.subrange(0, i - p) =~= t.subrange(p as int, i as int));
            }
            let text = template.substring_char(p, i).to_string();
            chunks.push(Chunk::Text(text));
            if j == len {
                let whole = template.substring_char(p, len).to_string();
                chunks.push(Chunk::Text(whole));
                proof {
                    assert(chunks@.map_values(|c: Chunk| c@) =~= before + seq![
                        ChunkView::Text(t.subrange(p as int, i as int)),
                        ChunkView::Text(s),
                    ]);
                    assert(t.subrange(len as int, len as int) =~= Seq::<char>::empty());
                    assert(template_chunks(Seq::<char>::empty()) =~= Seq::<ChunkView>::empty());
                }
                p = len;
            } else {
                let var = template.substring_char(i + 1, j).to_string();
                chunks.push(Chunk::Variable(var));
                proof {
                    let rest = t.subrange(i + 1, len as int);
                    assert(rest.subrange(0, j - i - 1) =~= t.subrange(i + 1, j as int));
                    assert(rest.subrange(j - i, rest.len() as int) =~= t.subrange(j + 1, len as int));
                    assert(chunks@.map_values(|c: Chunk| c@) =~= before + seq![
                        ChunkView::Text(t.subrange(p as int, i as int)),
                        ChunkView::Variable(t.subrange(i + 1, j as int)),
                    ]);
                    assert(template_chunks(s) == seq![
                        ChunkView::Text(t.subrange(p as int, i as int)),
                        ChunkView::Variable(t.subrange(i + 1, j as int)),
                    ] + template_chunks(t.subrange(j + 1, len as int)));
                    assert(before + template_chunks(s) =~= (before + seq![
                        ChunkView::Text(t.subrange(p as int, i as int)),
                        ChunkView::Variable(t.subrange(i + 1, j as int)),
                    ]) + template_chunks(t.subrange(j + 1, len as int)));
                }
                p = j + 1;
            }
        }
    }
    proof {
        assert(t.subrange(p as int, len as int) =~= Seq::<char>::empty());
        assert(template_chunks(Seq::<char>::empty()) =~= Seq::<ChunkView>::empty());
        assert(chunks@.map_values(|c: Chunk| c@) + Seq::<ChunkView>::empty() =~= chunks@.map_values(
            |c: Chunk| c@,
        ));
    }
    chunks
}

} // verus!

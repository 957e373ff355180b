use vstd::prelude::*;
use vstd::string::StringSliceAdditionalSpecFns;

use crate::scanner::Span;

verus! {

/// An interned identifier: equal text always yields an equal handle.
#[derive(Clone, Copy, PartialEq, Eq, Structural, Debug)]
pub struct Symbol(pub usize);

/// Owns the source text of one compilation and the table of interned names.
pub struct CompilerContext {
    source: Vec<u8>,
    names: Vec<Vec<u8>>,
}

/// Two sequences are equal element by element.
pub fn bytes_equal(a: &[u8], b: &[u8]) -> (r: bool)
    ensures
        r == (a@ == b@),
{
    if a.len() != b.len() {
        return false;
    }
    let mut i: usize = 0;
    while i < a.len()
        invariant
            a@.len() == b@.len(),
            i <= a@.len(),
            forall|k: int| 0 <= k < i ==> a@[k] == b@[k],
        decreases a@.len() - i,
    {
        if a[i] != b[i] {
            return false;
        }
        i = i + 1;
    }
    assert(a@ =~= b@);
    true
}

impl CompilerContext {
    /// The source text, as bytes.
    pub closed spec fn source_view(&self) -> Seq<u8> {
        self.source@
    }

    /// The interned names; a symbol is an index into this table.
    pub closed spec fn names_view(&self) -> Seq<Seq<u8>> {
        self.names@.map_values(|v: Vec<u8>| v@)
    }

    /// No name is interned twice.
    pub open spec fn wf(&self) -> bool {
        forall|i: int, j: int|
            0 <= i < j < self.names_view().len() ==> self.names_view()[i]
                != self.names_view()[j]
    }

    pub fn new(source: &str) -> (r: CompilerContext)
        ensures
            r.source_view() == source.spec_bytes(),
            r.names_view() == Seq::<Seq<u8>>::empty(),
            r.wf(),
    {
        let bytes = source.as_bytes();
        let mut copy: Vec<u8> = Vec::new();
        let mut i: usize = 0;
        while i < bytes.len()
            invariant
                i <= bytes@.len(),
                copy@ == bytes@.subrange(0, i as int),
            decreases bytes@.len() - i,
        {
            copy.push(bytes[i]);
            i = i + 1;
            assert(copy@ =~= bytes@.subrange(0, i as int));
        }
        assert(copy@ =~= bytes@);
        let r = CompilerContext { source: copy, names: Vec::new() };
        assert(r.names_view() =~= Seq::<Seq<u8>>::empty());
        r
    }

    pub fn get_source_code(&self) -> (r: &Vec<u8>)
        ensures
            r@ == self.source_view(),
    {
        &self.source
    }

    /// The bytes of the source that `span` covers.
    pub fn get_text_snippet(&self, span: Span) -> (r: Vec<u8>)
        requires
            span.start.0 <= span.end.0 <= self.source_view().len(),
        ensures
            r@ == self.source_view().subrange(span.start.0 as int, span.end.0 as int),
    {
        let start = span.start.0;
        let end = span.end.0;
        let mut out: Vec<u8> = Vec::new();
        let mut i: usize = start;
        while i < end
            invariant
                start <= i <= end,
                end <= self.source@.len(),
                out@ == self.source@.subrange(start as int, i as int),
            decreases end - i,
        {
            out.push(self.source[i]);
            i = i + 1;
            assert(out@ =~= self.source@.subrange(start as int, i as int));
        }
        out
    }

    /// The handle of `text`, interning it first if it is new.
    pub fn get_or_intern_str(&mut self, text: &[u8]) -> (r: Symbol)
        requires
            old(self).wf(),
        ensures
            final(self).wf(),
            final(self).source_view() == old(self).source_view(),
            old(self).names_view().is_prefix_of(final(self).names_view()),
            r.0 < final(self).names_view().len(),
            final(self).names_view()[r.0 as int] == text@,
            old(self).names_view().contains(text@) ==> final(self).names_view()
                == old(self).names_view(),
            !old(self).names_view().contains(text@) ==> final(self).names_view()
                == old(self).names_view().push(text@),
    {
        let mut i: usize = 0;
        while i < self.names.len()
            invariant
                i <= self.names@.len(),
                self.wf(),
                self.names_view() == old(self).names_view(),
                self.source_view() == old(self).source_view(),
                forall|k: int| 0 <= k < i ==> self.names_view()[k] != text@,
            decreases self.names@.len() - i,
        {
            if bytes_equal(self.names[i].as_slice(), text) {
                assert(self.names_view()[i as int] == text@);
                return Symbol(i);
            }
            i = i + 1;
        }
        let mut copy: Vec<u8> = Vec::new();
        let mut j: usize = 0;
        while j < text.len()
            invariant
                j <= text@.len(),
                copy@ == text@.subrange(0, j as int),
            decreases text@.len() - j,
        {
            copy.push(text[j]);
            j = j + 1;
            assert(copy@ =~= text@.subrange(0, j as int));
        }
        assert(copy@ =~= text@);
        let ghost before = self.names_view();
        self.names.push(copy);
        assert(self.names_view() =~= before.push(text@));
        Symbol(i)
    }

    /// The text of an interned symbol, if the handle is known.
    pub fn symbol_text(&self, sym: Symbol) -> (r: Option<Vec<u8>>)
        ensures
            sym.0 < self.names_view().len() ==> r is Some && r->0@ == self.names_view()[sym.0 as int],
            sym.0 >= self.names_view().len() ==> r is None,
    {
        if sym.0 < self.names.len() {
            let src = &self.names[sym.0];
            let mut out: Vec<u8> = Vec::new();
            let mut i: usize = 0;
            while i < src.len()
                invariant
                    i <= src@.len(),
                    out@ == src@.subrange(0, i as int),
                decreases src@.len() - i,
            {
                out.push(src[i]);
                i = i + 1;
                assert(out@ =~= src@.subrange(0, i as int));
            }
            assert(out@ =~= src@);
            Some(out)
        } else {
            None
        }
    }
}

} // verus!

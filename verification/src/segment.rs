//! Tokenizer adapter: word segmentation for indexing and for
//! query-time expansion, provided by the `jieba_rs` crate and consumed
//! through a deterministic `cut_for_search` contract. Strings holding
//! an interior NUL are rejected, as the C-string interface common to
//! such segmenters demands; everything else segments.

use vstd::prelude::*;
use crate::text::has_nul;
use crate::text::str_contains_nul;

verus! {

#[verifier::external_type_specification]
#[verifier::external_body]
pub struct ExJieba(jieba_rs::Jieba);

/// What search-mode segmentation returns for a text: a finite sequence
/// of substrings. `jieba_rs::Jieba::cut_for_search` with the bundled
/// dictionary is deterministic in the input text alone, so the result
/// has a name; nothing more is assumed of it.
pub uninterp spec fn segments_of(s: Seq<char>) -> Seq<Seq<char>>;

#[derive(Debug)]
pub enum JiebaError {
    NulError,
}

/// A segmenter handle, always built over the crate's bundled default
/// dictionary.
pub struct Segmenter {
    inner: jieba_rs::Jieba,
}

/// The result of one segmentation: the tokens, owned.
pub struct JiebaWords {
    pub words: Vec<String>,
}

impl View for JiebaWords {
    type V = Seq<Seq<char>>;

    open spec fn view(&self) -> Seq<Seq<char>> {
        self.words.deep_view()
    }
}

/// A cursor over the tokens of one segmentation.
pub struct JiebaWordsIter<'a> {
    pub words: &'a JiebaWords,
    pub count: usize,
}

impl JiebaWords {
    pub fn iter<'a>(&'a self) -> (r: JiebaWordsIter<'a>)
        ensures
            r.words@ == self@,
            r.count == 0,
    {
        JiebaWordsIter { words: self, count: 0 }
    }
}

impl<'a> JiebaWordsIter<'a> {
    /// The next token, or `None` once all have been handed out.
    pub fn next(&mut self) -> (r: Option<String>)
        ensures
            final (self).words == old(self).words,
            old(self).count < old(self).words@.len() ==> (r matches Some(w) && w@ == old(
                self,
            ).words@[old(self).count as int] && final (self).count == old(self).count + 1),
            old(self).count >= old(self).words@.len() ==> (r is None && final (self).count == old(
                self,
            ).count),
    {
        if self.count < self.words.words.len() {
            let w = self.words.words[self.count].clone();
            self.count = self.count + 1;
            Some(w)
        } else {
            None
        }
    }
}

impl Segmenter {
    /// Relies on `jieba_rs::Jieba::new`: builds a segmenter over the
    /// crate's bundled default dictionary. It loads an embedded table
    /// and cannot fail.
    #[verifier::external_body]
    pub fn new() -> (r: Segmenter) {
        Segmenter { inner: jieba_rs::Jieba::new() }
    }

    /// Relies on `jieba_rs::Jieba::cut_for_search`: search-mode
    /// segmentation over the bundled dictionary, deterministic in the
    /// input text alone.
    #[verifier::external_body]
    fn cut_raw(&self, tmpl: &str) -> (r: Vec<String>)
        ensures
            r.deep_view() == segments_of(tmpl@),
    {
        self.inner.cut_for_search(tmpl, true).into_iter().map(|t| t.word.to_string()).collect()
    }

    /// Segment a text in search mode, rejecting interior NULs.
    pub fn cut_for_search(&self, tmpl: &str) -> (r: Result<JiebaWords, JiebaError>)
        ensures
            r is Err <==> has_nul(tmpl@),
            r matches Ok(w) ==> w@ == segments_of(tmpl@),
    {
        if str_contains_nul(tmpl) {
            Err(JiebaError::NulError)
        } else {
            Ok(JiebaWords { words: self.cut_raw(tmpl) })
        }
    }
}

} // verus!

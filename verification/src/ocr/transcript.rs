//! Transcripts of pages, one after the other.

use vstd::prelude::*;

use crate::ocr::progress::OcrProgressEvent;
use crate::text;

verus! {

/// Why pages could not be transcribed.
#[derive(Debug)]
pub enum OcrError {
    /// The user cancelled.
    Cancelled,
    /// The model failed, or its files are not there.
    Inference(String),
    /// A page is no image.
    Render(String),
}

/// The text of one page.
#[derive(Debug)]
pub struct PageTranscript {
    pub page_index: usize,
    pub text: String,
    pub detected_language: Option<String>,
}

/// The model of a [`PageTranscript`].
pub struct PageView {
    pub page_index: usize,
    pub text: Seq<char>,
    pub detected_language: Option<Seq<char>>,
}

impl DeepView for PageTranscript {
    type V = PageView;

    open spec fn deep_view(&self) -> PageView {
        PageView {
            page_index: self.page_index,
            text: self.text@,
            detected_language: self.detected_language.deep_view(),
        }
    }
}

/// The characters of all pages.
pub open spec fn total_chars(pages: Seq<PageView>) -> nat
    decreases pages.len(),
{
    if pages.len() == 0 {
        0
    } else {
        total_chars(pages.drop_last()) + pages.last().text.len()
    }
}

proof fn lemma_total_chars_take(pages: Seq<PageView>, n: int)
    requires
        0 <= n <= pages.len(),
    ensures
        total_chars(pages.take(n)) <= total_chars(pages),
    decreases pages.len(),
{
    if n == pages.len() {
        assert(pages.take(n) =~= pages);
    } else {
        lemma_total_chars_take(pages.drop_last(), n);
        assert(pages.drop_last().take(n) =~= pages.take(n));
    }
}

/// A run over the pages of a document. Page by page, the caller asks whether to go on
/// ([`Self::next_page`]), has the page transcribed, and hands in the reply
/// ([`Self::finish_page`]).
pub struct Transcription {
    page_count: usize,
    done: Vec<PageTranscript>,
}

impl Transcription {
    /// The number of pages.
    pub closed spec fn page_count(&self) -> usize {
        self.page_count
    }

    /// The pages that are done.
    pub closed spec fn view(&self) -> Seq<PageView> {
        self.done.deep_view()
    }

    /// Whether the pages that are done are the first ones, in order.
    pub closed spec fn wf(&self) -> bool {
        &&& self.done@.len() <= self.page_count
        &&& forall|i: int|
            0 <= i < self.done@.len() ==> (#[trigger] self.done.deep_view()[i]).page_index == i
    }

    /// A run over so many pages.
    pub fn new(page_count: usize) -> (t: Self)
        ensures
            t.wf(),
            t.page_count() == page_count,
            t@ == Seq::<PageView>::empty(),
    {
        let t = Transcription { page_count, done: Vec::new() };
        assert(t@ =~= Seq::empty());
        t
    }

    /// The page that comes next; `None` if all are done. A run that is cancelled goes no
    /// further.
    pub fn next_page(&self, cancelled: bool) -> (r: Result<Option<usize>, OcrError>)
        requires
            self.wf(),
        ensures
            match r {
                Ok(Some(i)) => !cancelled && i == self@.len() && i < self.page_count(),
                Ok(None) => self@.len() == self.page_count(),
                Err(e) => cancelled && e is Cancelled && self@.len() < self.page_count(),
            },
    {
        if self.done.len() == self.page_count {
            Ok(None)
        } else if cancelled {
            Err(OcrError::Cancelled)
        } else {
            Ok(Some(self.done.len()))
        }
    }

    /// Takes in the reply of the model for the next page, without the whitespace around it. No
    /// reply is an empty page.
    pub fn finish_page(&mut self, reply: Option<&str>) -> (e: OcrProgressEvent)
        requires
            old(self).wf(),
            old(self)@.len() < old(self).page_count(),
        ensures
            final(self).wf(),
            final(self).page_count() == old(self).page_count(),
            ({
                let page = PageView {
                    page_index: old(self)@.len() as usize,
                    text: match reply {
                        Some(s) => text::trimmed(s@),
                        None => Seq::empty(),
                    },
                    detected_language: None,
                };
                &&& final(self)@ == old(self)@.push(page)
                &&& e == (OcrProgressEvent::PageDone {
                    page_index: page.page_index,
                    chars: page.text.len() as usize,
                })
            }),
    {
        let page_index: usize = self.done.len();
        let body = match reply {
            Some(s) => text::trim(s),
            None => String::new(),
        };
        let chars: usize = body.as_str().unicode_len();
        let page = PageTranscript { page_index, text: body, detected_language: None };
        let ghost before = self.done.deep_view();
        self.done.push(page);
        assert(self.done.deep_view() =~= before.push(page.deep_view()));
        OcrProgressEvent::PageDone { page_index, chars }
    }

    /// The report that all pages are done. A count of characters that is too large is reported
    /// as the largest there is.
    pub fn done_event(&self) -> (e: OcrProgressEvent)
        ensures
            e == (OcrProgressEvent::Done {
                pages_done: self@.len() as usize,
                total_chars: if total_chars(self@) <= usize::MAX {
                    total_chars(self@) as usize
                } else {
                    usize::MAX
                },
            }),
    {
        let ghost pages = self.done.deep_view();
        let mut sum: usize = 0;
        let mut i: usize = 0;
        assert(pages.take(0) =~= seq![]);
        while i < self.done.len()
            invariant
                pages == self.done.deep_view(),
                i <= self.done.len(),
                sum == total_chars(pages.take(i as int)),
            decreases self.done.len() - i,
        {
            let n: usize = self.done[i].text.as_str().unicode_len();
            proof {
                assert(pages.take(i + 1).drop_last() =~= pages.take(i as int));
                assert(pages.take(i + 1).last() == self.done[i as int].deep_view());
                lemma_total_chars_take(pages, i + 1);
            }
            if n > usize::MAX - sum {
                return OcrProgressEvent::Done {
                    pages_done: self.done.len(),
                    total_chars: usize::MAX,
                };
            }
            sum = sum + n;
            i = i + 1;
        }
        assert(pages.take(pages.len() as int) =~= pages);
        OcrProgressEvent::Done { pages_done: self.done.len(), total_chars: sum }
    }

    /// The transcripts.
    pub fn into_pages(self) -> (pages: Vec<PageTranscript>)
        ensures
            pages.deep_view() == self@,
    {
        self.done
    }
}

#[verifier::external_type_specification]
#[verifier::external_body]
pub struct ExDynamicImage(image::DynamicImage);

/// The picture that a file holds; or why it holds none.
pub uninterp spec fn decoded_image(bytes: Seq<u8>) -> Result<image::DynamicImage, Seq<char>>;

/// Calls `image::load_from_memory`. Which files hold a picture, and which, is left to the name
/// `decoded_image`, as is the message for the others.
#[verifier::external_body]
fn load_image(bytes: &[u8]) -> (r: Result<image::DynamicImage, String>)
    ensures
        match r {
            Ok(img) => decoded_image(bytes@) == Ok::<image::DynamicImage, Seq<char>>(img),
            Err(m) => decoded_image(bytes@) == Err::<image::DynamicImage, Seq<char>>(m@),
        },
{
    image::load_from_memory(bytes).map_err(|e| e.to_string())
}

/// Decodes a page for the model.
pub fn decode_page(page_index: usize, bytes: &[u8]) -> (r: Result<image::DynamicImage, OcrError>)
    ensures
        match decoded_image(bytes@) {
            Ok(img) => r == Ok::<image::DynamicImage, OcrError>(img),
            Err(m) => r matches Err(OcrError::Render(text)) && text@ == "page "@ + text::digits(
                page_index as nat,
            ) + " not a decodable image: "@ + m,
        },
{
    match load_image(bytes) {
        Ok(img) => Ok(img),
        Err(m) => Err(render_error(page_index, m.as_str())),
    }
}

/// The report of a page that is no image.
pub fn render_error(page_index: usize, reason: &str) -> (e: OcrError)
    ensures
        e matches OcrError::Render(m) && m@ == "page "@ + text::digits(page_index as nat)
            + " not a decodable image: "@ + reason@,
{
    let number = text::decimal_of_usize(page_index);
    let what = text::concat3("page ", number.as_str(), " not a decodable image: ");
    OcrError::Render(text::concat2(what.as_str(), reason))
}

/// The report of a page on which the model failed.
pub fn inference_error(page_index: usize, reason: &str) -> (e: OcrError)
    ensures
        e matches OcrError::Inference(m) && m@ == "page "@ + text::digits(page_index as nat) + ": "@
            + reason@,
{
    let number = text::decimal_of_usize(page_index);
    let what = text::concat3("page ", number.as_str(), ": ");
    OcrError::Inference(text::concat2(what.as_str(), reason))
}

/// The characters of pages in a row are those of the one part and those of the other; a page
/// alone has as many as its text.
pub proof fn characters_add_up(a: Seq<PageView>, b: Seq<PageView>, page: PageView)
    ensures
        total_chars(a + b) == total_chars(a) + total_chars(b),
        total_chars(seq![page]) == page.text.len(),
        total_chars(seq![]) == 0,
    decreases b.len(),
{
    assert(seq![page].drop_last() =~= seq![]);
    reveal_with_fuel(total_chars, 2);
    if b.len() == 0 {
        assert(a + b =~= a);
    } else {
        assert((a + b).drop_last() =~= a + b.drop_last());
        characters_add_up(a, b.drop_last(), page);
    }
}

} // verus!

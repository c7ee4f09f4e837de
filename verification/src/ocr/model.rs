//! The default model: which of its files are downloaded, and whether they have all arrived.

use vstd::prelude::*;

use crate::ocr::transcript::OcrError;
use crate::text;

verus! {

/// The identifier of the default model.
pub const DEFAULT_MODEL_ID: &'static str = "Qwen/Qwen2.5-VL-3B-Instruct";

/// The identifier of the default model.
pub fn default_model_id() -> (id: &'static str)
    ensures
        id@ == DEFAULT_MODEL_ID@,
        id@ == "Qwen/Qwen2.5-VL-3B-Instruct"@,
{
    DEFAULT_MODEL_ID
}

/// The size of the default model in bytes, roughly.
pub fn default_model_size_hint() -> (n: u64)
    ensures
        n == 6_000_000_000,
{
    6_000_000_000
}

/// Whether a file of the repository is not worth downloading: documentation and pictures, and
/// copies of the weights in other formats.
pub open spec fn is_skipped(name: Seq<char>) -> bool {
    let lower = text::lowered(name);
    ||| text::has_prefix(lower, ".git"@)
    ||| text::has_suffix(lower, ".gif"@)
    ||| text::has_suffix(lower, ".png"@)
    ||| text::has_suffix(lower, ".jpg"@)
    ||| text::has_suffix(lower, ".jpeg"@)
    ||| text::has_suffix(lower, ".md"@)
    ||| lower == "readme"@
    ||| text::has_suffix(lower, ".bin"@)
    ||| text::has_suffix(lower, ".pt"@)
    ||| text::has_suffix(lower, ".pth"@)
    ||| text::has_suffix(lower, ".onnx"@)
    ||| text::has_suffix(lower, ".onnx_data"@)
    ||| text::has_substring(lower, "consolidated."@)
}

/// Whether a file of the repository is not worth downloading.
pub fn skip_file(name: &str) -> (r: bool)
    ensures
        r == is_skipped(name@),
{
    if text::starts_lowered(name, ".git") || text::ends_lowered(name, ".gif")
        || text::ends_lowered(name, ".png") || text::ends_lowered(name, ".jpg")
        || text::ends_lowered(name, ".jpeg") || text::ends_lowered(name, ".md")
        || text::equals_lowered(name, "readme") {
        return true;
    }
    text::ends_lowered(name, ".bin") || text::ends_lowered(name, ".pt") || text::ends_lowered(
        name,
        ".pth",
    ) || text::ends_lowered(name, ".onnx") || text::ends_lowered(name, ".onnx_data")
        || text::contains_lowered(name, "consolidated.")
}

/// The files that are worth downloading, in their order.
pub open spec fn wanted(names: Seq<Seq<char>>) -> Seq<Seq<char>>
    decreases names.len(),
{
    if names.len() == 0 {
        seq![]
    } else {
        let rest = wanted(names.drop_last());
        if is_skipped(names.last()) {
            rest
        } else {
            rest.push(names.last())
        }
    }
}

/// Picks the files that are worth downloading. A repository without any is refused.
pub fn wanted_files(model_id: &str, names: &Vec<String>) -> (r: Result<Vec<String>, OcrError>)
    ensures
        match r {
            Ok(files) => files.deep_view() == wanted(names.deep_view()) && files@.len() > 0,
            Err(e) => wanted(names.deep_view()).len() == 0 && (e matches OcrError::Inference(m)
                && m@ == "no downloadable files found in "@ + model_id@),
        },
{
    let ghost all = names.deep_view();
    let mut files: Vec<String> = Vec::new();
    let mut i: usize = 0;
    proof {
        assert(all.take(0) =~= seq![]);
        assert(files.deep_view() =~= seq![]);
    }
    while i < names.len()
        invariant
            all == names.deep_view(),
            i <= names.len(),
            files.deep_view() == wanted(all.take(i as int)),
        decreases names.len() - i,
    {
        proof {
            assert(all.take(i + 1).drop_last() =~= all.take(i as int));
            assert(all.take(i + 1).last() == names[i as int]@);
        }
        if !skip_file(names[i].as_str()) {
            let ghost before = files.deep_view();
            let name = names[i].clone();
            files.push(name);
            assert(files.deep_view() =~= before.push(name@));
        }
        i = i + 1;
    }
    assert(all.take(all.len() as int) =~= all);
    if files.len() == 0 {
        assert(files.deep_view().len() == 0);
        return Err(
            OcrError::Inference(text::concat2("no downloadable files found in ", model_id)),
        );
    }
    assert(files.deep_view().len() == files@.len());
    Ok(files)
}

/// The files without which the weights cannot be loaded: the index of the shards, and the
/// shards.
pub open spec fn required() -> Seq<Seq<char>> {
    seq![
        "model.safetensors.index.json"@,
        "model-00001-of-00002.safetensors"@,
        "model-00002-of-00002.safetensors"@,
    ]
}

/// The files without which the weights cannot be loaded.
pub fn required_files() -> (files: Vec<String>)
    ensures
        files.deep_view() == required(),
{
    let mut files: Vec<String> = Vec::new();
    files.push("model.safetensors.index.json".to_owned());
    files.push("model-00001-of-00002.safetensors".to_owned());
    files.push("model-00002-of-00002.safetensors".to_owned());
    assert(files.deep_view() =~= required());
    files
}

/// Whether the weights are in the cache, given which of the required files are.
pub fn is_cached(present: &Vec<bool>) -> (r: bool)
    requires
        present@.len() == required().len(),
    ensures
        r == (forall|i: int| 0 <= i < present@.len() ==> #[trigger] present@[i]),
{
    let mut i: usize = 0;
    while i < present.len()
        invariant
            i <= present.len(),
            forall|k: int| 0 <= k < i ==> #[trigger] present@[k],
        decreases present.len() - i,
    {
        if !present[i] {
            return false;
        }
        i = i + 1;
    }
    true
}

/// Those of the files that are not in the cache.
pub open spec fn missing(files: Seq<Seq<char>>, present: Seq<bool>) -> Seq<Seq<char>>
    decreases files.len(),
{
    if files.len() == 0 {
        seq![]
    } else {
        let rest = missing(files.drop_last(), present);
        if present[files.len() - 1] {
            rest
        } else {
            rest.push(files.last())
        }
    }
}

/// The texts in a row, with a separator between them.
pub open spec fn joined_with(parts: Seq<Seq<char>>, separator: Seq<char>) -> Seq<char>
    decreases parts.len(),
{
    if parts.len() == 0 {
        seq![]
    } else if parts.len() == 1 {
        parts[0]
    } else {
        joined_with(parts.drop_last(), separator) + separator + parts.last()
    }
}

/// Writes texts in a row, with a separator between them.
fn join_with(parts: &Vec<String>, separator: &str) -> (r: String)
    ensures
        r@ == joined_with(parts.deep_view(), separator@),
{
    let ghost all = parts.deep_view();
    let mut out = String::new();
    let mut i: usize = 0;
    assert(all.take(0) =~= seq![]);
    while i < parts.len()
        invariant
            all == parts.deep_view(),
            i <= parts.len(),
            out@ == joined_with(all.take(i as int), separator@),
        decreases parts.len() - i,
    {
        proof {
            assert(all.take(i + 1).drop_last() =~= all.take(i as int));
            assert(all.take(i + 1).last() == parts[i as int]@);
        }
        if i > 0 {
            out.append(separator);
        }
        out.append(parts[i].as_str());
        proof {
            if i == 0 {
                assert(out@ =~= parts[0]@);
            }
        }
        i = i + 1;
    }
    assert(all.take(all.len() as int) =~= all);
    out
}

/// The report of files that a download did not bring.
pub open spec fn incomplete_message(model_id: Seq<char>, absent: Seq<Seq<char>>) -> Seq<char> {
    "download finished but "@ + text::digits(absent.len()) + " file(s) missing from cache: "@
        + joined_with(absent, ", "@)
        + ". The HF cache for this model may be corrupt — clear it with `rm -rf ~/.cache/huggingface/hub/models--"@
        + text::with_replaced(model_id, '/', "--"@) + "` and retry."@
}

/// Checks, after a download, that every file has arrived.
pub fn check_download(model_id: &str, files: &Vec<String>, present: &Vec<bool>) -> (r: Result<
    (),
    OcrError,
>)
    requires
        files@.len() == present@.len(),
    ensures
        ({
            let absent = missing(files.deep_view(), present@);
            match r {
                Ok(_) => absent.len() == 0,
                Err(e) => absent.len() > 0 && (e matches OcrError::Inference(m) && m@
                    == incomplete_message(model_id@, absent)),
            }
        }),
        r is Ok <==> forall|i: int| 0 <= i < present@.len() ==> #[trigger] present@[i],
{
    proof {
        absent_files_are_missing(files.deep_view(), present@);
    }
    let ghost all = files.deep_view();
    let mut absent: Vec<String> = Vec::new();
    let mut i: usize = 0;
    proof {
        assert(all.take(0) =~= seq![]);
        assert(absent.deep_view() =~= seq![]);
    }
    while i < files.len()
        invariant
            all == files.deep_view(),
            files@.len() == present@.len(),
            i <= files.len(),
            absent.deep_view() == missing(all.take(i as int), present@),
        decreases files.len() - i,
    {
        proof {
            assert(all.take(i + 1).drop_last() =~= all.take(i as int));
            assert(all.take(i + 1).last() == files[i as int]@);
        }
        if !present[i] {
            let ghost before = absent.deep_view();
            let name = files[i].clone();
            absent.push(name);
            assert(absent.deep_view() =~= before.push(name@));
        }
        i = i + 1;
    }
    assert(all.take(all.len() as int) =~= all);
    assert(absent.deep_view().len() == absent@.len());
    if absent.len() == 0 {
        return Ok(());
    }
    let count = text::decimal_of_usize(absent.len());
    let list = join_with(&absent, ", ");
    let folder = text::replace_char(model_id, '/', "--");
    let mut m = text::concat3("download finished but ", count.as_str(), " file(s) missing from cache: ");
    m.append(list.as_str());
    m.append(
        ". The HF cache for this model may be corrupt — clear it with `rm -rf ~/.cache/huggingface/hub/models--",
    );
    m.append(folder.as_str());
    m.append("` and retry.");
    Err(OcrError::Inference(m))
}

/// The report of a failure of the repository.
pub fn hub_error(reason: &str) -> (e: OcrError)
    ensures
        e matches OcrError::Inference(m) && m@ == "hf-hub: "@ + reason@,
{
    OcrError::Inference(text::concat2("hf-hub: ", reason))
}

/// The report of a model that could not be loaded.
pub fn load_error(reason: &str) -> (e: OcrError)
    ensures
        e matches OcrError::Inference(m) && m@ == "model load failed: "@ + reason@,
{
    OcrError::Inference(text::concat2("model load failed: ", reason))
}

/// The name under which a loaded model goes.
pub fn backend_name(model_id: &str) -> (name: String)
    ensures
        name@ == "mistralrs/"@ + model_id@,
{
    text::concat2("mistralrs/", model_id)
}

/// Pictures, documentation and what belongs to Git is not downloaded, nor are copies of the
/// weights in other formats; in any mix of cases.
pub proof fn needless_files_are_skipped(name: Seq<char>)
    ensures
        text::has_prefix(text::lowered(name), ".git"@) ==> is_skipped(name),
        text::has_suffix(text::lowered(name), ".gif"@) ==> is_skipped(name),
        text::has_suffix(text::lowered(name), ".png"@) ==> is_skipped(name),
        text::has_suffix(text::lowered(name), ".jpg"@) ==> is_skipped(name),
        text::has_suffix(text::lowered(name), ".jpeg"@) ==> is_skipped(name),
        text::has_suffix(text::lowered(name), ".md"@) ==> is_skipped(name),
        text::lowered(name) == "readme"@ ==> is_skipped(name),
        text::has_suffix(text::lowered(name), ".bin"@) ==> is_skipped(name),
        text::has_suffix(text::lowered(name), ".pt"@) ==> is_skipped(name),
        text::has_suffix(text::lowered(name), ".pth"@) ==> is_skipped(name),
        text::has_suffix(text::lowered(name), ".onnx"@) ==> is_skipped(name),
        text::has_suffix(text::lowered(name), ".onnx_data"@) ==> is_skipped(name),
        text::has_substring(text::lowered(name), "consolidated."@) ==> is_skipped(name),
{
}

/// The weights themselves are downloaded, whatever they are called, unless they belong to Git or
/// are a consolidated copy.
pub proof fn weights_are_downloaded(name: Seq<char>)
    requires
        text::has_suffix(text::lowered(name), ".safetensors"@),
        !text::has_prefix(text::lowered(name), ".git"@),
        !text::has_substring(text::lowered(name), "consolidated."@),
    ensures
        !is_skipped(name),
{
    let lower = text::lowered(name);
    reveal_strlit(".safetensors");
    reveal_strlit(".gif");
    reveal_strlit(".png");
    reveal_strlit(".jpg");
    reveal_strlit(".jpeg");
    reveal_strlit(".md");
    reveal_strlit("readme");
    reveal_strlit(".bin");
    reveal_strlit(".pt");
    reveal_strlit(".pth");
    reveal_strlit(".onnx");
    reveal_strlit(".onnx_data");
    lemma_last(lower, ".safetensors"@);
    assert(lower.last() == 's');
    lemma_last(lower, ".gif"@);
    lemma_last(lower, ".png"@);
    lemma_last(lower, ".jpg"@);
    lemma_last(lower, ".jpeg"@);
    lemma_last(lower, ".md"@);
    lemma_last(lower, ".bin"@);
    lemma_last(lower, ".pt"@);
    lemma_last(lower, ".pth"@);
    lemma_last(lower, ".onnx"@);
    lemma_last(lower, ".onnx_data"@);
    assert("readme"@.last() == 'e');
}

/// A text that ends with another ends with its last character.
proof fn lemma_last(s: Seq<char>, suffix: Seq<char>)
    requires
        suffix.len() > 0,
    ensures
        text::has_suffix(s, suffix) ==> s.last() == suffix.last(),
{
    if text::has_suffix(s, suffix) {
        assert(s.skip(s.len() - suffix.len()).last() == s.last());
    }
}

/// The files that are downloaded are those of the repository that are not skipped, in their order.
pub proof fn every_needed_file_is_downloaded(names: Seq<Seq<char>>)
    ensures
        wanted(names) == names.filter(|name: Seq<char>| !is_skipped(name)),
    decreases names.len(),
{
    reveal(Seq::filter);
    if names.len() > 0 {
        every_needed_file_is_downloaded(names.drop_last());
    } else {
        assert(names.filter(|name: Seq<char>| !is_skipped(name)) =~= seq![]);
    }
}

/// A file is reported as missing exactly if it is not there.
pub proof fn absent_files_are_missing(files: Seq<Seq<char>>, present: Seq<bool>)
    requires
        files.len() <= present.len(),
    ensures
        forall|i: int|
            0 <= i < files.len() && !present[i] ==> missing(files, present).contains(
                #[trigger] files[i],
            ),
        forall|k: int|
            0 <= k < missing(files, present).len() ==> exists|i: int|
                0 <= i < files.len() && !present[i] && #[trigger] files[i] == #[trigger] missing(
                    files,
                    present,
                )[k],
        missing(files, present).len() == 0 <==> forall|i: int|
            0 <= i < files.len() ==> #[trigger] present[i],
        missing(files, present).len() <= files.len(),
    decreases files.len(),
{
    if files.len() > 0 {
        let init = files.drop_last();
        let rest = missing(init, present);
        let all = missing(files, present);
        let n = files.len() - 1;
        absent_files_are_missing(init, present);
        assert forall|i: int| 0 <= i < files.len() && !present[i] implies all.contains(
            #[trigger] files[i],
        ) by {
            if i < n {
                assert(init[i] == files[i]);
                assert(rest.contains(files[i]));
                let k = choose|k: int| 0 <= k < rest.len() && rest[k] == files[i];
                assert(all[k] == files[i]);
            } else {
                assert(all[all.len() - 1] == files[i]);
            }
        }
        assert forall|k: int| 0 <= k < all.len() implies exists|i: int|
            0 <= i < files.len() && !present[i] && #[trigger] files[i] == #[trigger] all[k] by {
            if k < rest.len() {
                assert(all[k] == rest[k]);
                let i = choose|i: int|
                    0 <= i < init.len() && !present[i] && #[trigger] init[i] == rest[k];
                assert(files[i] == init[i]);
            } else {
                assert(files[n] == all[k]);
            }
        }
    }
}

/// Texts in a row are those of the one part, a separator, and those of the other.
pub proof fn rows_of_texts_join(a: Seq<Seq<char>>, b: Seq<Seq<char>>, separator: Seq<char>)
    requires
        a.len() > 0,
        b.len() > 0,
    ensures
        joined_with(a + b, separator) == joined_with(a, separator) + separator + joined_with(
            b,
            separator,
        ),
        a.len() == 1 ==> joined_with(a, separator) == a[0],
    decreases b.len(),
{
    assert((a + b).drop_last() =~= a + b.drop_last());
    if b.len() == 1 {
        assert(a + b.drop_last() =~= a);
    } else {
        rows_of_texts_join(a, b.drop_last(), separator);
        assert(joined_with(a + b, separator) =~= joined_with(a, separator) + separator
            + joined_with(b, separator));
    }
}

} // verus!

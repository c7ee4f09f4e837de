use rehydrate::ocr::model::{
    backend_name, check_download, default_model_id, default_model_size_hint, hub_error, is_cached,
    load_error, required_files, skip_file, wanted_files,
};
use rehydrate::ocr::progress::{DownloadTotals, FileProgress, OcrProgressEvent};
use rehydrate::ocr::prompt::{build_prompt, TranscribeOptions, TRANSCRIBE_PROMPT_BASE};
use rehydrate::ocr::render::{
    is_drawn, is_visible_tool, stroke_colour, white, Bitmap, Colour, RenderError, Tool,
};
use rehydrate::ocr::transcript::{
    decode_page, inference_error, render_error, OcrError, Transcription,
};

fn blank(width: u32, height: u32) -> Bitmap {
    Bitmap { width, height, data: vec![0xff; (width * height * 4) as usize] }
}

fn put_pixel(img: &mut Bitmap, x: u32, y: u32, rgba: [u8; 4]) {
    let at = ((y * img.width + x) * 4) as usize;
    for k in 0..4 {
        img.data[at + k] = rgba[k];
    }
}

#[test]
fn crop_to_ink_bbox_blank_returns_none() {
    let img = blank(100, 100);
    assert!(img.crop_to_ink_bbox(10).is_none());
}

#[test]
fn crop_to_ink_bbox_finds_tight_box_with_margin() {
    let mut img = blank(100, 100);
    put_pixel(&mut img, 30, 40, [0, 0, 0, 255]);
    let cropped = img.crop_to_ink_bbox(5).expect("non-blank");
    assert_eq!((cropped.width, cropped.height), (11, 11));
    let at = ((5 * 11 + 5) * 4) as usize;
    assert_eq!(&cropped.data[at..at + 4], &[0, 0, 0, 255]);
    assert_eq!(cropped.data.iter().filter(|b| **b == 0).count(), 3);
}

#[test]
fn crop_to_ink_bbox_clamps_margin_to_image_edges() {
    let mut img = blank(20, 20);
    put_pixel(&mut img, 0, 0, [0, 0, 0, 255]);
    let cropped = img.crop_to_ink_bbox(5).expect("non-blank");
    assert_eq!((cropped.width, cropped.height), (6, 6));
    let whole = img.crop_to_ink_bbox(u32::MAX).expect("non-blank");
    assert_eq!((whole.width, whole.height), (20, 20));
    assert_eq!(whole.data, img.data);
}

#[test]
fn ink_is_what_is_darker_than_the_threshold() {
    let mut img = blank(4, 3);
    put_pixel(&mut img, 1, 1, [230, 230, 230, 255]);
    assert!(img.ink_box().is_none());
    put_pixel(&mut img, 2, 1, [229, 230, 230, 255]);
    let b = img.ink_box().expect("ink");
    assert_eq!((b.min_x, b.max_x, b.min_y, b.max_y), (2, 2, 1, 1));
    put_pixel(&mut img, 0, 2, [0, 0, 0, 255]);
    let b = img.ink_box().expect("ink");
    assert_eq!((b.min_x, b.max_x, b.min_y, b.max_y), (0, 2, 1, 2));
}

#[test]
fn pictures_survive_the_way_to_the_model() {
    let mut img = blank(3, 2);
    put_pixel(&mut img, 1, 0, [1, 2, 3, 255]);
    let png = img.encode_png().unwrap();
    assert_eq!(&png[1..4], b"PNG");
    let back = decode_page(0, &png).unwrap().to_rgba8();
    assert_eq!(back.dimensions(), (3, 2));
    assert_eq!(back.into_raw(), img.data);
    match decode_page(7, b"no picture") {
        Err(OcrError::Render(m)) => {
            assert!(m.starts_with("page 7 not a decodable image: "), "{m}")
        }
        other => panic!("expected Render, got {other:?}"),
    }
    let empty = Bitmap { width: 0, height: 0, data: Vec::new() };
    assert!(matches!(empty.encode_png(), Err(RenderError::Encode(_))));
}

#[test]
fn tools_have_their_colours() {
    assert!(is_visible_tool(Tool::Brush));
    assert!(!is_visible_tool(Tool::Eraser));
    assert!(!is_visible_tool(Tool::EraseArea));
    assert!(!is_visible_tool(Tool::EraseAll));
    assert!(!is_visible_tool(Tool::SelectionBrush));
    assert_eq!(stroke_colour(Tool::Highlighter), Colour { r: 0xff, g: 0xea, b: 0x4a, a: 0x80 });
    assert_eq!(stroke_colour(Tool::Pencil), Colour { r: 0x66, g: 0x66, b: 0x66, a: 0xff });
    assert_eq!(stroke_colour(Tool::FineLiner), Colour { r: 0, g: 0, b: 0, a: 0xff });
    assert_eq!(white(), Colour { r: 0xff, g: 0xff, b: 0xff, a: 0xff });
    assert!(is_drawn(Tool::Marker, 2));
    assert!(!is_drawn(Tool::Marker, 1));
    assert!(!is_drawn(Tool::Eraser, 9));
}

#[test]
fn the_default_model_is_named() {
    assert_eq!(default_model_id(), "Qwen/Qwen2.5-VL-3B-Instruct");
    assert_eq!(default_model_size_hint(), 6_000_000_000);
    assert_eq!(backend_name("a/b"), "mistralrs/a/b");
}

#[test]
fn files_that_are_not_needed_are_skipped() {
    for name in [
        ".gitattributes", "demo.GIF", "a.png", "b.JPG", "c.jpeg", "README.md", "readme", "README",
        "pytorch_model.bin", "x.pt", "y.pth", "model.onnx", "model.onnx_data",
        "consolidated.00.safetensors",
    ] {
        assert!(skip_file(name), "{name}");
    }
    for name in ["config.json", "model-00001-of-00002.safetensors", "readme.txt", "git.json", "pt"] {
        assert!(!skip_file(name), "{name}");
    }
}

#[test]
fn a_download_is_planned_and_checked() {
    let names: Vec<String> =
        ["README.md", "config.json", "a.bin", "w.safetensors"].iter().map(|s| s.to_string()).collect();
    let wanted = wanted_files("q/m", &names).unwrap();
    assert_eq!(wanted, vec!["config.json".to_string(), "w.safetensors".to_string()]);
    match wanted_files("q/m", &vec!["README.md".to_string()]) {
        Err(OcrError::Inference(m)) => assert_eq!(m, "no downloadable files found in q/m"),
        other => panic!("expected Inference, got {other:?}"),
    }
    assert!(check_download("q/m", &wanted, &vec![true, true]).is_ok());
    match check_download("q/m", &wanted, &vec![false, false]) {
        Err(OcrError::Inference(m)) => assert_eq!(
            m,
            "download finished but 2 file(s) missing from cache: config.json, w.safetensors. \
             The HF cache for this model may be corrupt — clear it with \
             `rm -rf ~/.cache/huggingface/hub/models--q--m` and retry."
        ),
        other => panic!("expected Inference, got {other:?}"),
    }
    assert_eq!(
        required_files(),
        vec![
            "model.safetensors.index.json".to_string(),
            "model-00001-of-00002.safetensors".to_string(),
            "model-00002-of-00002.safetensors".to_string(),
        ]
    );
    assert!(is_cached(&vec![true, true, true]));
    assert!(!is_cached(&vec![true, false, true]));
    assert!(matches!(hub_error("x"), OcrError::Inference(m) if m == "hf-hub: x"));
    assert!(matches!(load_error("x"), OcrError::Inference(m) if m == "model load failed: x"));
}

fn shown(t: &DownloadTotals) -> (u64, Option<u64>) {
    match t.event() {
        OcrProgressEvent::DownloadProgress { done, total } => (done, total),
        other => panic!("unexpected {other:?}"),
    }
}

#[test]
fn progress_adds_up_over_files() {
    let mut totals = DownloadTotals::new();
    assert_eq!(shown(&totals), (0, None));
    totals.add_cached(10);
    assert_eq!(shown(&totals), (10, Some(10)));
    let mut file = FileProgress::new();
    file.init(100, &mut totals);
    file.init(100, &mut totals);
    assert_eq!(shown(&totals), (10, Some(110)));
    assert!(!file.update(0, &mut totals));
    assert!(file.update(60, &mut totals));
    assert_eq!(shown(&totals), (70, Some(110)));
    assert!(file.update(60, &mut totals));
    assert_eq!(shown(&totals), (110, Some(110)));
    assert!(!file.update(1, &mut totals));
    assert!(!file.finish(&mut totals));
    let mut short = FileProgress::new();
    short.init(5, &mut totals);
    assert!(short.finish(&mut totals));
    assert_eq!(shown(&totals), (115, Some(115)));
}

#[test]
fn resumed_downloads_never_go_back() {
    let mut totals = DownloadTotals::new();
    let mut file = FileProgress::new();
    file.init(100, &mut totals);
    file.update(60, &mut totals);
    file.init(100, &mut totals);
    assert_eq!(shown(&totals), (60, Some(100)));
    assert!(!file.update(60, &mut totals));
    assert_eq!(shown(&totals), (60, Some(100)));
    assert!(file.update(40, &mut totals));
    assert_eq!(shown(&totals), (100, Some(100)));
    file.init(100, &mut totals);
    assert!(!file.update(30, &mut totals));
    assert!(!file.finish(&mut totals));
    assert_eq!(shown(&totals), (100, Some(100)));
    totals.add_cached(u64::MAX);
    assert_eq!(shown(&totals), (u64::MAX, Some(u64::MAX)));
}

#[test]
fn prompts_name_language_and_format() {
    let plain = TranscribeOptions { language: None, markdown: false };
    assert_eq!(build_prompt(&plain), TRANSCRIBE_PROMPT_BASE);
    assert!(TRANSCRIBE_PROMPT_BASE.starts_with("Transcribe the handwritten text in this image verbatim — exact words, "));
    assert!(TRANSCRIBE_PROMPT_BASE.ends_with("no markdown code fences."));
    let blank = TranscribeOptions { language: Some(" \t".to_string()), markdown: false };
    assert_eq!(build_prompt(&blank), TRANSCRIBE_PROMPT_BASE);
    let german = TranscribeOptions { language: Some("German".to_string()), markdown: true };
    assert_eq!(
        build_prompt(&german),
        format!(
            "{TRANSCRIBE_PROMPT_BASE}\n\nThe text is primarily in German; recognise that script accordingly.\
             \n\nWhere the original handwriting clearly indicates structure (titles, bullet lists, \
             indented quotes), output it as Markdown. Otherwise output plain prose."
        )
    );
}

#[test]
fn pages_are_transcribed_one_after_the_other() {
    let mut run = Transcription::new(2);
    assert_eq!(run.next_page(false).unwrap(), Some(0));
    match run.finish_page(Some("  Grüße \n")) {
        OcrProgressEvent::PageDone { page_index, chars } => assert_eq!((page_index, chars), (0, 5)),
        other => panic!("unexpected {other:?}"),
    }
    assert!(matches!(run.next_page(true), Err(OcrError::Cancelled)));
    assert_eq!(run.next_page(false).unwrap(), Some(1));
    run.finish_page(None);
    assert_eq!(run.next_page(true).unwrap(), None);
    match run.done_event() {
        OcrProgressEvent::Done { pages_done, total_chars } => {
            assert_eq!((pages_done, total_chars), (2, 5))
        }
        other => panic!("unexpected {other:?}"),
    }
    let pages = run.into_pages();
    assert_eq!(pages[0].text, "Grüße");
    assert_eq!(pages[1].text, "");
    assert_eq!(pages[1].page_index, 1);
    assert_eq!(pages[0].detected_language, None);
    assert!(matches!(inference_error(3, "x"), OcrError::Inference(m) if m == "page 3: x"));
    assert!(
        matches!(render_error(12, "x"), OcrError::Render(m) if m == "page 12 not a decodable image: x")
    );
}

#[test]
fn a_drawing_error_has_its_message() {
    assert_eq!(RenderError::Parse("empty".to_string()).message(), "parse: empty");
    assert_eq!(RenderError::Encode("bad".to_string()).message(), "encode: bad");
    assert_eq!(RenderError::Io("disk".to_string()).message(), "io: disk");
}

//! The manifest of a document version: its metadata and the files it is made of.

use vstd::prelude::*;

use crate::error::{CoreError, ErrorView};
use crate::hash::Sha256Hex;
use crate::json;
use crate::paths;
use crate::text;

verus! {

/// One file of a document.
#[derive(Debug)]
pub struct ManifestFile {
    pub path: String,
    pub sha256: Sha256Hex,
    pub size: u64,
    pub mode: u32,
    /// Made by the library and never sent to the device.
    pub derived: bool,
}

/// The model of a [`ManifestFile`].
pub struct FileView {
    pub path: Seq<char>,
    pub sha256: Seq<char>,
    pub size: u64,
    pub mode: u32,
    pub derived: bool,
}

impl DeepView for ManifestFile {
    type V = FileView;

    open spec fn deep_view(&self) -> FileView {
        FileView {
            path: self.path@,
            sha256: self.sha256@,
            size: self.size,
            mode: self.mode,
            derived: self.derived,
        }
    }
}

impl Clone for ManifestFile {
    fn clone(&self) -> (r: Self)
        ensures
            r.deep_view() == self.deep_view(),
    {
        ManifestFile {
            path: self.path.clone(),
            sha256: self.sha256.clone(),
            size: self.size,
            mode: self.mode,
            derived: self.derived,
        }
    }
}

/// Everything a version of a document consists of.
#[derive(Debug)]
pub struct Manifest {
    pub document_id: String,
    pub doc_type: String,
    pub visible_name: String,
    pub parent: Option<String>,
    pub metadata: serde_json::Value,
    pub content_meta: serde_json::Value,
    pub files: Vec<ManifestFile>,
}

/// The model of a [`Manifest`].
pub struct ManifestView {
    pub document_id: Seq<char>,
    pub doc_type: Seq<char>,
    pub visible_name: Seq<char>,
    pub parent: Option<Seq<char>>,
    pub metadata: serde_json::Value,
    pub content_meta: serde_json::Value,
    pub files: Seq<FileView>,
}

impl DeepView for Manifest {
    type V = ManifestView;

    open spec fn deep_view(&self) -> ManifestView {
        ManifestView {
            document_id: self.document_id@,
            doc_type: self.doc_type@,
            visible_name: self.visible_name@,
            parent: self.parent.deep_view(),
            metadata: self.metadata,
            content_meta: self.content_meta,
            files: self.files.deep_view(),
        }
    }
}

/// The bytes that a list of files holds in all.
pub open spec fn total_size(files: Seq<FileView>) -> nat
    decreases files.len(),
{
    if files.len() == 0 {
        0
    } else {
        total_size(files.drop_last()) + files.last().size as nat
    }
}

/// The path of the first file that would lie outside its document.
pub open spec fn first_stray(files: Seq<FileView>) -> Option<Seq<char>>
    decreases files.len(),
{
    if files.len() == 0 {
        None
    } else {
        match first_stray(files.drop_last()) {
            Some(path) => Some(path),
            None => if paths::leads_inside(files.last().path) {
                None
            } else {
                Some(files.last().path)
            },
        }
    }
}

/// The report of a path that leads out of its document.
pub open spec fn stray_path(path: Seq<char>) -> ErrorView {
    ErrorView::InvalidArgument(
        "manifest path "@ + text::quoted(path) + " does not stay inside the document"@,
    )
}

/// The files have no stray among them if, and only if, every path leads inside.
pub proof fn lemma_first_stray(files: Seq<FileView>)
    ensures
        first_stray(files) is None <==> forall|i: int|
            0 <= i < files.len() ==> paths::leads_inside((#[trigger] files[i]).path),
        first_stray(files) matches Some(p) ==> !paths::leads_inside(p),
    decreases files.len(),
{
    if files.len() > 0 {
        let init = files.drop_last();
        lemma_first_stray(init);
        if first_stray(files) is None {
            assert forall|i: int| 0 <= i < files.len() implies paths::leads_inside(
                (#[trigger] files[i]).path,
            ) by {
                if i < init.len() {
                    assert(init[i] == files[i]);
                }
            }
        }
        if forall|i: int| 0 <= i < files.len() ==> paths::leads_inside((#[trigger] files[i]).path) {
            assert forall|i: int| 0 <= i < init.len() implies paths::leads_inside(
                (#[trigger] init[i]).path,
            ) by {
                assert(init[i] == files[i]);
            }
        }
    }
}

proof fn lemma_stray_take(files: Seq<FileView>, n: int)
    requires
        0 <= n <= files.len(),
        first_stray(files.take(n)) is Some,
    ensures
        first_stray(files) == first_stray(files.take(n)),
    decreases files.len(),
{
    if n == files.len() {
        assert(files.take(n) =~= files);
    } else {
        assert(files.drop_last().take(n) =~= files.take(n));
        lemma_stray_take(files.drop_last(), n);
    }
}

impl ManifestView {
    /// Whether the total size fits a 64-bit count.
    pub open spec fn size_fits(self) -> bool {
        total_size(self.files) <= u64::MAX
    }
}

pub proof fn lemma_total_size_take(files: Seq<FileView>, n: int)
    requires
        0 <= n <= files.len(),
    ensures
        total_size(files.take(n)) <= total_size(files),
    decreases files.len(),
{
    if n == files.len() {
        assert(files.take(n) =~= files);
    } else {
        lemma_total_size_take(files.drop_last(), n);
        assert(files.drop_last().take(n) =~= files.take(n));
    }
}

impl Clone for Manifest {
    fn clone(&self) -> (r: Self)
        ensures
            r.deep_view() == self.deep_view(),
    {
        let mut files: Vec<ManifestFile> = Vec::new();
        let mut i: usize = 0;
        while i < self.files.len()
            invariant
                i <= self.files.len(),
                files.deep_view() == self.files.deep_view().take(i as int),
            decreases self.files.len() - i,
        {
            let ghost before = files.deep_view();
            let f = self.files[i].clone();
            files.push(f);
            assert(files.deep_view() =~= before.push(f.deep_view()));
            assert(files.deep_view() =~= self.files.deep_view().take(i + 1));
            i = i + 1;
        }
        assert(files.deep_view() =~= self.files.deep_view());
        Manifest {
            document_id: self.document_id.clone(),
            doc_type: self.doc_type.clone(),
            visible_name: self.visible_name.clone(),
            parent: text::copy_opt_string(&self.parent),
            metadata: json::copy(&self.metadata),
            content_meta: json::copy(&self.content_meta),
            files,
        }
    }
}

impl Manifest {
    /// A manifest without files, at the root, with empty metadata.
    pub fn new(document_id: &str, doc_type: &str, visible_name: &str) -> (m: Self)
        ensures
            m.deep_view() == (ManifestView {
                document_id: document_id@,
                doc_type: doc_type@,
                visible_name: visible_name@,
                parent: None,
                metadata: json::object_value(Map::empty()),
                content_meta: json::object_value(Map::empty()),
                files: seq![],
            }),
    {
        let m = Manifest {
            document_id: document_id.to_owned(),
            doc_type: doc_type.to_owned(),
            visible_name: visible_name.to_owned(),
            parent: None,
            metadata: json::empty_object(),
            content_meta: json::empty_object(),
            files: Vec::new(),
        };
        assert(m.files.deep_view() =~= seq![]);
        m
    }

    /// Refuses a manifest with a file that would lie outside its document: one with an absolute
    /// path, a path that steps up, or none at all.
    pub fn validate_paths(&self) -> (r: Result<(), CoreError>)
        ensures
            match first_stray(self.deep_view().files) {
                Some(path) => r matches Err(e) && e.deep_view() == stray_path(path),
                None => r is Ok,
            },
    {
        let ghost files = self.files.deep_view();
        let mut i: usize = 0;
        assert(files.take(0) =~= seq![]);
        while i < self.files.len()
            invariant
                i <= self.files.len(),
                files == self.files.deep_view(),
                first_stray(files.take(i as int)) is None,
            decreases self.files.len() - i,
        {
            proof {
                assert(files.take(i + 1).drop_last() =~= files.take(i as int));
                assert(files.take(i + 1).last() == self.files[i as int].deep_view());
            }
            if !paths::is_inside(self.files[i].path.as_str()) {
                proof {
                    lemma_stray_take(files, i + 1);
                }
                let shown = text::quote(self.files[i].path.as_str());
                return Err(
                    CoreError::InvalidArgument(
                        text::concat3(
                            "manifest path ",
                            shown.as_str(),
                            " does not stay inside the document",
                        ),
                    ),
                );
            }
            i = i + 1;
        }
        assert(files.take(files.len() as int) =~= files);
        Ok(())
    }

    /// Whether the total size fits a 64-bit count.
    pub fn size_fits(&self) -> (r: bool)
        ensures
            r == self.deep_view().size_fits(),
    {
        let ghost files = self.files.deep_view();
        let mut sum: u64 = 0;
        let mut i: usize = 0;
        assert(files.take(0) =~= seq![]);
        while i < self.files.len()
            invariant
                i <= self.files.len(),
                files == self.files.deep_view(),
                sum == total_size(files.take(i as int)),
            decreases self.files.len() - i,
        {
            proof {
                assert(files.take(i + 1).drop_last() =~= files.take(i as int));
                lemma_total_size_take(files, i + 1);
            }
            match sum.checked_add(self.files[i].size) {
                Some(next) => {
                    sum = next;
                },
                None => {
                    return false;
                },
            }
            i = i + 1;
        }
        assert(files.take(files.len() as int) =~= files);
        true
    }

    /// The bytes that the files hold in all.
    pub fn total_size(&self) -> (n: u64)
        requires
            self.deep_view().size_fits(),
        ensures
            n == total_size(self.deep_view().files),
    {
        let ghost files = self.files.deep_view();
        let mut sum: u64 = 0;
        let mut i: usize = 0;
        assert(files.take(0) =~= seq![]);
        while i < self.files.len()
            invariant
                i <= self.files.len(),
                files == self.files.deep_view(),
                total_size(files) <= u64::MAX,
                sum == total_size(files.take(i as int)),
            decreases self.files.len() - i,
        {
            proof {
                assert(files.take(i + 1).drop_last() =~= files.take(i as int));
                lemma_total_size_take(files, i + 1);
            }
            sum = sum + self.files[i].size;
            i = i + 1;
        }
        assert(files.take(files.len() as int) =~= files);
        sum
    }
}

/// The size of one file is the size of a list of it alone, and the size of two lists is the size
/// of the one and the size of the other.
pub proof fn sizes_add_up(a: Seq<FileView>, b: Seq<FileView>, f: FileView)
    ensures
        total_size(a + b) == total_size(a) + total_size(b),
        total_size(seq![f]) == f.size,
        total_size(seq![]) == 0,
    decreases b.len(),
{
    assert(seq![f].drop_last() =~= seq![]);
    reveal_with_fuel(total_size, 2);
    if b.len() == 0 {
        assert(a + b =~= a);
    } else {
        assert((a + b).drop_last() =~= a + b.drop_last());
        sizes_add_up(a, b.drop_last(), f);
    }
}

/// The stray that is reported is the first one: every file before it stays inside.
pub proof fn first_stray_is_reported(files: Seq<FileView>)
    ensures
        first_stray(files) matches Some(path) ==> exists|i: int|
            0 <= i < files.len() && (#[trigger] files[i]).path == path && !paths::leads_inside(path)
                && forall|j: int| 0 <= j < i ==> paths::leads_inside((#[trigger] files[j]).path),
    decreases files.len(),
{
    if files.len() > 0 {
        let init = files.drop_last();
        first_stray_is_reported(init);
        lemma_first_stray(init);
        if let Some(path) = first_stray(files) {
            if first_stray(init) is Some {
                let i = choose|i: int|
                    0 <= i < init.len() && (#[trigger] init[i]).path == path && !paths::leads_inside(
                        path,
                    ) && forall|j: int|
                        0 <= j < i ==> paths::leads_inside((#[trigger] init[j]).path);
                assert(files[i] == init[i]);
                assert forall|j: int| 0 <= j < i implies paths::leads_inside(
                    (#[trigger] files[j]).path,
                ) by {
                    assert(init[j] == files[j]);
                }
            } else {
                let n = files.len() - 1;
                assert(files[n].path == path);
                assert forall|j: int| 0 <= j < n implies paths::leads_inside(
                    (#[trigger] files[j]).path,
                ) by {
                    assert(init[j] == files[j]);
                }
            }
        }
    }
}

} // verus!

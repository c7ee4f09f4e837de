//! Folders: the tree, its order, and the changes that the device has yet to hear of.

use vstd::prelude::*;

use crate::error;
use crate::error::{CoreError, ErrorView};
use crate::json;
use crate::library::documents;
use crate::library::rows;
use crate::library::rows::{FolderRow, FolderRowView, SortIndex};
use crate::library::types::{DeleteFolderOutcome, FolderEntry, FolderEntryView, FolderPushKind};
use crate::library::types::{FolderPushOp, FolderPushOpView, SummaryView};
use crate::library::{Library, LibraryView};
use crate::table;
use crate::table::{Ranked, Row};
use crate::text;

verus! {

/// Folders rank by their position, then by name, then by identifier.
impl Ranked for FolderRow {
    open spec fn precedes(a: FolderRowView, b: FolderRowView) -> bool {
        let (x, y) = (rows::ordinal(a.sort_index), rows::ordinal(b.sort_index));
        x < y || (x == y && (text::lex_less(a.visible_name, b.visible_name) || (a.visible_name
            == b.visible_name && text::lex_less(a.folder_id, b.folder_id))))
    }

    proof fn irreflexive(a: FolderRowView) {
        text::lemma_lex_irreflexive(a.visible_name);
        text::lemma_lex_irreflexive(a.folder_id);
    }

    proof fn transitive(a: FolderRowView, b: FolderRowView, c: FolderRowView) {
        if text::lex_less(a.visible_name, b.visible_name) && text::lex_less(b.visible_name, c.visible_name) {
            text::lemma_lex_transitive(a.visible_name, b.visible_name, c.visible_name);
        }
        if text::lex_less(a.folder_id, b.folder_id) && text::lex_less(b.folder_id, c.folder_id) {
            text::lemma_lex_transitive(a.folder_id, b.folder_id, c.folder_id);
        }
    }

    proof fn total(a: FolderRowView, b: FolderRowView) {
        text::lemma_lex_total(a.visible_name, b.visible_name);
        text::lemma_lex_total(a.folder_id, b.folder_id);
    }

    fn before(&self, other: &Self) -> (r: bool) {
        if self.sort_index.less(other.sort_index) {
            true
        } else if other.sort_index.less(self.sort_index) {
            false
        } else if text::str_less(self.visible_name.as_str(), other.visible_name.as_str()) {
            true
        } else if text::str_eq(self.visible_name.as_str(), other.visible_name.as_str()) {
            text::str_less(self.folder_id.as_str(), other.folder_id.as_str())
        } else {
            false
        }
    }
}

/// A parent with the empty text read as no parent.
pub open spec fn nonempty(parent: Option<Seq<char>>) -> Option<Seq<char>> {
    match parent {
        Some(p) => if p.len() == 0 {
            None
        } else {
            Some(p)
        },
        None => None,
    }
}

/// A parent with the root written as the empty text.
pub open spec fn parent_text(parent: Option<Seq<char>>) -> Seq<char> {
    match parent {
        Some(p) => p,
        None => Seq::empty(),
    }
}

/// A folder as the listing shows it.
pub open spec fn folder_entry(row: FolderRowView) -> FolderEntryView {
    FolderEntryView {
        folder_id: row.folder_id,
        parent: nonempty(row.parent),
        visible_name: row.visible_name,
        sort_index: row.sort_index,
    }
}

/// The entries of those of `rows` that are no tombstones.
pub open spec fn live_entries(rows: Seq<FolderRowView>) -> Seq<FolderEntryView>
    decreases rows.len(),
{
    if rows.len() == 0 {
        seq![]
    } else {
        let rest = live_entries(rows.drop_last());
        if rows.last().deleted_locally {
            rest
        } else {
            rest.push(folder_entry(rows.last()))
        }
    }
}

/// The folders by position and name, without tombstones.
pub open spec fn folder_listing(v: LibraryView) -> Seq<FolderEntryView> {
    live_entries(table::ranked::<FolderRow>(v.folders))
}

/// Whether `max` is a greatest position among the folders under `parent`, tombstones
/// included.
pub open spec fn is_last_position(
    folders: Map<Seq<char>, FolderRowView>,
    parent: Option<Seq<char>>,
    max: SortIndex,
) -> bool {
    &&& exists|k: Seq<char>| #[trigger]
        folders.contains_key(k) && parent_text(folders[k].parent) == parent_text(parent)
            && folders[k].sort_index == max
    &&& forall|k: Seq<char>| #[trigger]
        folders.contains_key(k) && parent_text(folders[k].parent) == parent_text(parent)
            ==> rows::ordinal(folders[k].sort_index) <= rows::ordinal(max)
}

/// The row of a folder that the device has just shown. A rename that has yet to be pushed
/// survives, and so does the position; a folder that is new goes to `position`.
pub open spec fn mirrored(
    folders: Map<Seq<char>, FolderRowView>,
    folder_id: Seq<char>,
    parent: Option<Seq<char>>,
    visible_name: Seq<char>,
    metadata_json: Seq<char>,
    position: SortIndex,
) -> FolderRowView {
    if folders.contains_key(folder_id) {
        let row = folders[folder_id];
        FolderRowView {
            parent,
            visible_name: if row.pending_push {
                row.visible_name
            } else {
                visible_name
            },
            metadata_json: if row.pending_push {
                row.metadata_json
            } else {
                metadata_json
            },
            last_synced_metadata_json: Some(metadata_json),
            ..row
        }
    } else {
        FolderRowView {
            folder_id,
            parent,
            visible_name,
            metadata_json,
            pending_push: false,
            sort_index: position,
            deleted_locally: false,
            last_synced_metadata_json: Some(metadata_json),
        }
    }
}

/// A change to a folder's metadata.
pub enum FolderEdit<'a> {
    /// A new parent; the empty text is the root.
    Parent(&'a str),
    /// A new name.
    Name(&'a str),
    /// The folder is deleted.
    Deleted,
}

/// The model of a [`FolderEdit`].
pub enum FolderEditView {
    Parent(Seq<char>),
    Name(Seq<char>),
    Deleted,
}

impl<'a> DeepView for FolderEdit<'a> {
    type V = FolderEditView;

    open spec fn deep_view(&self) -> FolderEditView {
        match *self {
            FolderEdit::Parent(p) => FolderEditView::Parent(p@),
            FolderEdit::Name(n) => FolderEditView::Name(n@),
            FolderEdit::Deleted => FolderEditView::Deleted,
        }
    }
}

/// Metadata fields of a folder after a change: the change itself, the marks of a local
/// edit, and the type, if it was missing. All other fields stay.
pub open spec fn edited_fields(
    fields: Map<Seq<char>, serde_json::Value>,
    edit: FolderEditView,
    now_ms: i64,
) -> Map<Seq<char>, serde_json::Value> {
    let changed = match edit {
        FolderEditView::Parent(p) => fields.insert("parent"@, json::string_value(p)),
        FolderEditView::Name(n) => fields.insert("visibleName"@, json::string_value(n)),
        FolderEditView::Deleted => fields.insert("deleted"@, json::bool_value(true)),
    };
    let marked = json::touched(changed, now_ms);
    if marked.contains_key("type"@) {
        marked
    } else {
        marked.insert("type"@, json::string_value("CollectionType"@))
    }
}

/// The metadata text of a folder after a change. A text that is no JSON object is started
/// over.
pub open spec fn edited_json(metadata_json: Seq<char>, edit: FolderEditView, now_ms: i64) -> Seq<char> {
    json::compact_json(
        json::object_value(edited_fields(json::fields_of_text(metadata_json), edit, now_ms)),
    )
}

/// Whether a folder's new metadata text is the old one with one text changed, the marks of a
/// local edit set, and the type added where there was none; every other field is as it was.
pub open spec fn changes_text(
    old_json: Seq<char>,
    new_json: Seq<char>,
    key: Seq<char>,
    what: Seq<char>,
    now_ms: i64,
) -> bool {
    exists|value: serde_json::Value|
        new_json == #[trigger] json::compact_json(value) && json::text_field(value, key) == Some(
            what,
        ) && is_marked(value, now_ms) && keeps_other_fields(old_json, value, key)
}

/// Whether a folder's new metadata text is the old one with the folder marked as deleted, the
/// marks of a local edit set, and the type added where there was none; every other field is as
/// it was.
pub open spec fn changes_to_deleted(old_json: Seq<char>, new_json: Seq<char>, now_ms: i64) -> bool {
    exists|value: serde_json::Value|
        new_json == #[trigger] json::compact_json(value) && json::flag_field(value, "deleted"@)
            == Some(true) && is_marked(value, now_ms) && keeps_other_fields(
            old_json,
            value,
            "deleted"@,
        )
}

/// Whether metadata bears the marks of a local edit.
pub open spec fn is_marked(value: serde_json::Value, now_ms: i64) -> bool {
    &&& json::text_field(value, "lastModified"@) == Some(text::decimal(now_ms as int))
    &&& json::flag_field(value, "modified"@) == Some(true)
    &&& json::flag_field(value, "metadatamodified"@) == Some(true)
    &&& json::flag_field(value, "synced"@) == Some(false)
}

/// Whether metadata has the fields that its old text denotes, but for one, for the marks of a
/// local edit, and for a type where there was none.
pub open spec fn keeps_other_fields(
    old_json: Seq<char>,
    value: serde_json::Value,
    key: Seq<char>,
) -> bool {
    let before = json::fields_of_text(old_json);
    &&& forall|k: Seq<char>|
        k != key && k != "type"@ && k != "lastModified"@ && k != "modified"@ && k
            != "metadatamodified"@ && k != "synced"@ ==> #[trigger] json::field(value, k) == (
        if before.contains_key(k) {
            Some(before[k])
        } else {
            None
        })
    &&& before.contains_key("type"@) ==> json::field(value, "type"@) == Some(before["type"@])
    &&& !before.contains_key("type"@) ==> json::text_field(value, "type"@) == Some(
        "CollectionType"@,
    )
}

/// Whether a metadata text is that of a folder of the given name under the given parent, the
/// empty text for the root, that is new to the device.
pub open spec fn describes_new_folder(
    metadata_json: Seq<char>,
    name: Seq<char>,
    parent: Option<Seq<char>>,
    now_ms: i64,
) -> bool {
    exists|value: serde_json::Value|
        metadata_json == #[trigger] json::compact_json(value) && {
            &&& json::text_field(value, "visibleName"@) == Some(name)
            &&& json::text_field(value, "parent"@) == Some(
                match parent {
                    Some(p) => p,
                    None => Seq::empty(),
                },
            )
            &&& json::text_field(value, "type"@) == Some("CollectionType"@)
            &&& json::text_field(value, "lastOpened"@) == Some(""@)
            &&& json::count_field(value, "version"@) == Some(1u64)
            &&& json::flag_field(value, "pinned"@) == Some(false)
            &&& json::flag_field(value, "deleted"@) == Some(false)
            &&& is_marked(value, now_ms)
        }
}

proof fn lemma_keys_differ()
    ensures
        "visibleName"@.len() == 11,
        "type"@.len() == 4,
        "parent"@.len() == 6 && "parent"@[0] == 'p' && "parent"@[1] == 'a',
        "lastModified"@.len() == 12,
        "lastOpened"@.len() == 10,
        "version"@.len() == 7 && "version"@[0] == 'v',
        "pinned"@.len() == 6 && "pinned"@[0] == 'p' && "pinned"@[1] == 'i',
        "synced"@.len() == 6 && "synced"@[0] == 's',
        "modified"@.len() == 8,
        "deleted"@.len() == 7 && "deleted"@[0] == 'd',
        "metadatamodified"@.len() == 16,
{
    reveal_strlit("visibleName");
    reveal_strlit("type");
    reveal_strlit("parent");
    reveal_strlit("lastModified");
    reveal_strlit("lastOpened");
    reveal_strlit("version");
    reveal_strlit("pinned");
    reveal_strlit("synced");
    reveal_strlit("modified");
    reveal_strlit("deleted");
    reveal_strlit("metadatamodified");
}

fn edit_json(metadata_json: &str, edit: FolderEdit<'_>, now_ms: i64) -> (s: String)
    ensures
        s@ == edited_json(metadata_json@, edit.deep_view(), now_ms),
        match edit {
            FolderEdit::Parent(p) => changes_text(metadata_json@, s@, "parent"@, p@, now_ms),
            FolderEdit::Name(n) => changes_text(metadata_json@, s@, "visibleName"@, n@, now_ms),
            FolderEdit::Deleted => changes_to_deleted(metadata_json@, s@, now_ms),
        },
{
    let mut value = json::object_from_text(metadata_json);
    match edit {
        FolderEdit::Parent(p) => json::insert(&mut value, "parent", json::string(p)),
        FolderEdit::Name(n) => json::insert(&mut value, "visibleName", json::string(n)),
        FolderEdit::Deleted => json::insert(&mut value, "deleted", json::boolean(true)),
    }
    json::touch(&mut value, now_ms);
    if json::get(&value, "type").is_none() {
        json::insert(&mut value, "type", json::string("CollectionType"));
    }
    proof {
        lemma_keys_differ();
    }
    json::to_compact(&value)
}

/// The metadata of a new folder.
pub open spec fn new_folder_fields(name: Seq<char>, parent: Option<Seq<char>>, now_ms: i64) -> Map<
    Seq<char>,
    serde_json::Value,
> {
    Map::<Seq<char>, serde_json::Value>::empty().insert("visibleName"@, json::string_value(name)).insert(
        "type"@,
        json::string_value("CollectionType"@),
    ).insert("parent"@, json::string_value(parent_text(parent))).insert(
        "lastModified"@,
        json::string_value(text::decimal(now_ms as int)),
    ).insert("lastOpened"@, json::string_value(""@)).insert("version"@, json::number_value(1)).insert(
        "pinned"@,
        json::bool_value(false),
    ).insert("synced"@, json::bool_value(false)).insert("modified"@, json::bool_value(true)).insert(
        "deleted"@,
        json::bool_value(false),
    ).insert("metadatamodified"@, json::bool_value(true))
}

/// The row of a new folder.
pub open spec fn new_folder_row(
    folder_id: Seq<char>,
    name: Seq<char>,
    parent: Option<Seq<char>>,
    position: SortIndex,
    now_ms: i64,
) -> FolderRowView {
    FolderRowView {
        folder_id,
        parent,
        visible_name: name,
        metadata_json: json::compact_json(
            json::object_value(new_folder_fields(name, parent, now_ms)),
        ),
        pending_push: true,
        sort_index: position,
        deleted_locally: false,
        last_synced_metadata_json: None,
    }
}

/// Whether going up from `start` meets `target` within `steps` folders.
pub open spec fn climb_meets(
    folders: Map<Seq<char>, FolderRowView>,
    start: Seq<char>,
    target: Seq<char>,
    steps: nat,
) -> bool
    decreases steps,
{
    if steps == 0 {
        false
    } else if start == target {
        true
    } else {
        match parent_of(folders, start) {
            Some(p) => climb_meets(folders, p, target, (steps - 1) as nat),
            None => false,
        }
    }
}

/// The parent of a folder; `None` at the root, and for a folder that is not there.
pub open spec fn parent_of(folders: Map<Seq<char>, FolderRowView>, id: Seq<char>) -> Option<Seq<char>> {
    if folders.contains_key(id) {
        nonempty(folders[id].parent)
    } else {
        None
    }
}

/// Why a folder cannot be put under a new parent at a new position, if so.
pub open spec fn reorder_error(
    v: LibraryView,
    folder_id: Seq<char>,
    new_parent: Option<Seq<char>>,
    position: SortIndex,
) -> Option<ErrorView> {
    if !rows::is_finite(position) {
        Some(ErrorView::InvalidArgument("sort_index must be finite"@))
    } else if new_parent == Some(folder_id) {
        Some(ErrorView::InvalidArgument("cannot move a folder into itself"@))
    } else if !v.folders.contains_key(folder_id) {
        Some(ErrorView::NotFound("folder "@ + folder_id))
    } else if new_parent is Some && climb_meets(
        v.folders,
        new_parent->0,
        folder_id,
        v.folders.dom().len(),
    ) {
        Some(ErrorView::InvalidArgument("cannot move a folder into one of its descendants"@))
    } else {
        None
    }
}

/// The row of a folder at its new place. A new parent is a change for the device; a new
/// position alone is not.
pub open spec fn replaced(
    row: FolderRowView,
    new_parent: Option<Seq<char>>,
    position: SortIndex,
    now_ms: i64,
) -> FolderRowView {
    if row.parent != new_parent {
        FolderRowView {
            parent: new_parent,
            sort_index: position,
            metadata_json: edited_json(
                row.metadata_json,
                FolderEditView::Parent(parent_text(new_parent)),
                now_ms,
            ),
            pending_push: true,
            ..row
        }
    } else {
        FolderRowView { sort_index: position, ..row }
    }
}

/// The library after a folder has been put under a new parent at a new position.
pub open spec fn reordered(
    v: LibraryView,
    folder_id: Seq<char>,
    new_parent: Option<Seq<char>>,
    position: SortIndex,
    now_ms: i64,
) -> LibraryView {
    LibraryView {
        folders: v.folders.insert(
            folder_id,
            replaced(v.folders[folder_id], new_parent, position, now_ms),
        ),
        ..v
    }
}

impl Library {
    /// The folders by position and name, without tombstones.
    pub fn list_folders(&self) -> (out: Vec<FolderEntry>)
        requires
            self.wf(),
        ensures
            out.deep_view() == folder_listing(self@),
    {
        let order = self.folders.rank_order();
        let ghost rows = table::ranked::<FolderRow>(self@.folders);
        let mut out: Vec<FolderEntry> = Vec::new();
        let mut i: usize = 0;
        proof {
            assert(rows.take(0) =~= seq![]);
            assert(out.deep_view() =~= seq![]);
        }
        while i < order.len()
            invariant
                self.wf(),
                rows == table::at_positions(self.folders.listing(), order@),
                forall|k: int|
                    0 <= k < order@.len() ==> (#[trigger] order@[k]) < self.folders.listing().len(),
                i <= order.len(),
                out.deep_view() == live_entries(rows.take(i as int)),
            decreases order.len() - i,
        {
            let row = self.folders.row(order[i]);
            proof {
                assert(rows.take(i + 1).drop_last() =~= rows.take(i as int));
                assert(rows.take(i + 1).last() == row.deep_view());
            }
            if !row.deleted_locally {
                let entry = FolderEntry {
                    folder_id: row.folder_id.clone(),
                    parent: nonempty_parent(&row.parent),
                    visible_name: row.visible_name.clone(),
                    sort_index: row.sort_index,
                };
                let ghost before = out.deep_view();
                out.push(entry);
                assert(out.deep_view() =~= before.push(entry.deep_view()));
            }
            i = i + 1;
        }
        assert(rows.take(rows.len() as int) =~= rows);
        out
    }

    /// A greatest position among the folders under `parent`, tombstones included. A new
    /// folder goes after it.
    pub fn last_position(&self, parent: Option<&str>) -> (r: Option<SortIndex>)
        requires
            self.wf(),
        ensures
            match r {
                Some(max) => is_last_position(self@.folders, parent.deep_view(), max),
                None => forall|k: Seq<char>| #[trigger]
                    self@.folders.contains_key(k) ==> parent_text(self@.folders[k].parent)
                        != parent_text(parent.deep_view()),
            },
    {
        let ghost rows = self.folders.listing();
        let ghost place = parent_text(parent.deep_view());
        let target = match parent {
            Some(p) => p,
            None => "",
        };
        proof {
            reveal_strlit("");
            assert(""@ =~= Seq::empty());
        }
        let mut best: Option<SortIndex> = None;
        let mut i: usize = 0;
        while i < self.folders.len()
            invariant
                self.wf(),
                rows == self.folders.listing(),
                target@ == place,
                ""@ == Seq::<char>::empty(),
                i <= rows.len(),
                match best {
                    Some(max) => {
                        &&& exists|k: int|
                            0 <= k < i && parent_text((#[trigger] rows[k]).parent) == place
                                && rows[k].sort_index == max
                        &&& forall|k: int|
                            0 <= k < i && parent_text((#[trigger] rows[k]).parent) == place
                                ==> rows::ordinal(rows[k].sort_index) <= rows::ordinal(max)
                    },
                    None => forall|k: int|
                        0 <= k < i ==> parent_text((#[trigger] rows[k]).parent) != place,
                },
            decreases rows.len() - i,
        {
            let row = self.folders.row(i);
            let here = match &row.parent {
                Some(p) => p.as_str(),
                None => "",
            };
            assert(here@ == parent_text(rows[i as int].parent));
            if text::str_eq(here, target) {
                match best {
                    Some(max) => {
                        if max.less(row.sort_index) {
                            best = Some(row.sort_index);
                            assert(rows[i as int].sort_index == row.sort_index);
                        }
                    },
                    None => {
                        best = Some(row.sort_index);
                        assert(rows[i as int].sort_index == row.sort_index);
                    },
                }
            }
            i = i + 1;
        }
        proof {
            assert forall|k: Seq<char>| #[trigger] self@.folders.contains_key(k) implies exists|n: int|
                0 <= n < rows.len() && #[trigger] rows[n] == self@.folders[k] by {
                let n = table::lemma_key_has_row::<FolderRow>(rows, k);
                assert(rows[n] == self@.folders[k]);
            }
            if best is Some {
                let k = choose|k: int|
                    0 <= k < i && parent_text((#[trigger] rows[k]).parent) == place
                        && rows[k].sort_index == best->0;
                table::lemma_by_key::<FolderRow>(rows, k);
                assert(self@.folders.contains_key(FolderRow::key_of(rows[k])));
            }
        }
        best
    }

    /// Takes over a folder from the device. A new folder goes to `position`, which is meant to
    /// be after the last of its siblings; see [`Self::last_position`].
    pub fn upsert_folder(
        &mut self,
        folder_id: &str,
        parent: Option<&str>,
        visible_name: &str,
        metadata_json: &str,
        position: SortIndex,
    )
        requires
            old(self).wf(),
        ensures
            final(self).wf(),
            final(self).layout() == old(self).layout(),
            final(self)@ == (LibraryView {
                folders: old(self)@.folders.insert(
                    folder_id@,
                    mirrored(
                        old(self)@.folders,
                        folder_id@,
                        parent.deep_view(),
                        visible_name@,
                        metadata_json@,
                        position,
                    ),
                ),
                ..old(self)@
            }),
    {
        let row = match self.folders.get(folder_id) {
            Some(old_row) => {
                proof {
                    table::lemma_key_has_row::<FolderRow>(self.folders.listing(), folder_id@);
                }
                let mut row = old_row.copy();
                row.parent = text::to_opt_string(parent);
                if !row.pending_push {
                    row.visible_name = visible_name.to_owned();
                    row.metadata_json = metadata_json.to_owned();
                }
                row.last_synced_metadata_json = Some(metadata_json.to_owned());
                row
            },
            None => FolderRow {
                folder_id: folder_id.to_owned(),
                parent: text::to_opt_string(parent),
                visible_name: visible_name.to_owned(),
                metadata_json: metadata_json.to_owned(),
                pending_push: false,
                sort_index: position,
                deleted_locally: false,
                last_synced_metadata_json: Some(metadata_json.to_owned()),
            },
        };
        self.folders.put(row);
    }

    /// Creates a folder that the device has yet to hear of. `folder_id` is a fresh
    /// identifier, `position` is meant to be after the last of its siblings.
    pub fn create_folder(
        &mut self,
        folder_id: String,
        visible_name: &str,
        parent: Option<&str>,
        position: SortIndex,
        now_ms: i64,
    ) -> (r: Result<FolderEntry, CoreError>)
        requires
            old(self).wf(),
        ensures
            final(self).wf(),
            final(self).layout() == old(self).layout(),
            ({
                let v = old(self)@;
                let name = text::trimmed(visible_name@);
                let json = json::compact_json(
                    json::object_value(new_folder_fields(name, parent.deep_view(), now_ms)),
                );
                let error = if name.len() == 0 {
                    Some(ErrorView::InvalidArgument("folder name must not be empty"@))
                } else if parent is Some && !v.folders.contains_key(parent->0@) {
                    Some(ErrorView::NotFound("folder "@ + parent->0@))
                } else if v.folders.contains_key(folder_id@) {
                    Some(ErrorView::Sqlite("UNIQUE constraint failed: folders.folder_id"@))
                } else {
                    None
                };
                match r {
                    Ok(entry) => {
                        &&& error is None
                        &&& entry.deep_view() == (FolderEntryView {
                            folder_id: folder_id@,
                            parent: parent.deep_view(),
                            visible_name: name,
                            sort_index: position,
                        })
                        &&& final(self)@ == (LibraryView {
                            folders: v.folders.insert(
                                folder_id@,
                                FolderRowView {
                                    folder_id: folder_id@,
                                    parent: parent.deep_view(),
                                    visible_name: name,
                                    metadata_json: json,
                                    pending_push: true,
                                    sort_index: position,
                                    deleted_locally: false,
                                    last_synced_metadata_json: None,
                                },
                            ),
                            ..v
                        })
                    },
                    Err(e) => error == Some(e.deep_view()) && final(self)@ == v,
                }
            }),
            r is Ok ==> final(self)@.folders.contains_key(folder_id@)
                && final(self)@.folders[folder_id@] == new_folder_row(
                folder_id@,
                text::trimmed(visible_name@),
                parent.deep_view(),
                position,
                now_ms,
            ),
            r is Ok ==> describes_new_folder(
                final(self)@.folders[folder_id@].metadata_json,
                text::trimmed(visible_name@),
                parent.deep_view(),
                now_ms,
            ),
    {
        let name = text::trim(visible_name);
        if name.as_str().is_empty() {
            return Err(CoreError::InvalidArgument("folder name must not be empty".to_owned()));
        }
        let place = match parent {
            Some(p) => p,
            None => "",
        };
        proof {
            reveal_strlit("");
            assert(""@ =~= Seq::empty());
        }
        let stamp = text::decimal_of(now_ms);
        let mut value = json::empty_object();
        json::insert(&mut value, "visibleName", json::string(name.as_str()));
        json::insert(&mut value, "type", json::string("CollectionType"));
        json::insert(&mut value, "parent", json::string(place));
        json::insert(&mut value, "lastModified", json::string(stamp.as_str()));
        json::insert(&mut value, "lastOpened", json::string(""));
        json::insert(&mut value, "version", json::number(1));
        json::insert(&mut value, "pinned", json::boolean(false));
        json::insert(&mut value, "synced", json::boolean(false));
        json::insert(&mut value, "modified", json::boolean(true));
        json::insert(&mut value, "deleted", json::boolean(false));
        json::insert(&mut value, "metadatamodified", json::boolean(true));
        let metadata_json = json::to_compact(&value);
        proof {
            lemma_keys_differ();
            assert(describes_new_folder(metadata_json@, name@, parent.deep_view(), now_ms));
        }
        if let Some(p) = parent {
            if !self.folders.contains(p) {
                return Err(CoreError::NotFound(text::concat2("folder ", p)));
            }
        }
        if self.folders.contains(folder_id.as_str()) {
            return Err(
                CoreError::Sqlite("UNIQUE constraint failed: folders.folder_id".to_owned()),
            );
        }
        self.folders.put(
            FolderRow {
                folder_id: folder_id.clone(),
                parent: text::to_opt_string(parent),
                visible_name: name.clone(),
                metadata_json,
                pending_push: true,
                sort_index: position,
                deleted_locally: false,
                last_synced_metadata_json: None,
            },
        );
        Ok(
            FolderEntry {
                folder_id,
                parent: text::to_opt_string(parent),
                visible_name: name,
                sort_index: position,
            },
        )
    }
}

/// The children of a folder among `keys` that are no tombstones, with their positions.
pub open spec fn children_among(
    folders: Map<Seq<char>, FolderRowView>,
    keys: Seq<Seq<char>>,
    folder_id: Seq<char>,
) -> Seq<(Seq<char>, SortIndex)>
    decreases keys.len(),
{
    if keys.len() == 0 {
        seq![]
    } else {
        let rest = children_among(folders, keys.drop_last(), folder_id);
        let row = folders[keys.last()];
        if parent_text(row.parent) == folder_id && row.folder_id != folder_id && !row.deleted_locally {
            rest.push((row.folder_id, row.sort_index))
        } else {
            rest
        }
    }
}

/// The folders directly under a folder, in ascending order, with their positions.
pub open spec fn child_folders(v: LibraryView, folder_id: Seq<char>) -> Seq<(Seq<char>, SortIndex)> {
    children_among(v.folders, table::sorted_keys(v.folders), folder_id)
}

/// The library after the given folders have been put under a new parent one after the
/// other, each at its old position, and the error that stopped this, if any. What was done
/// before the error stays.
pub open spec fn lifted(
    v: LibraryView,
    children: Seq<(Seq<char>, SortIndex)>,
    new_parent: Option<Seq<char>>,
    now_ms: i64,
) -> (LibraryView, Option<ErrorView>)
    decreases children.len(),
{
    if children.len() == 0 {
        (v, None)
    } else {
        let (before, error) = lifted(v, children.drop_last(), new_parent, now_ms);
        let (id, position) = children.last();
        if error is Some {
            (before, error)
        } else {
            match reorder_error(before, id, new_parent, position) {
                Some(e) => (before, Some(e)),
                None => (reordered(before, id, new_parent, position, now_ms), None),
            }
        }
    }
}

proof fn lemma_lifted_fails(
    v: LibraryView,
    children: Seq<(Seq<char>, SortIndex)>,
    n: int,
    new_parent: Option<Seq<char>>,
    now_ms: i64,
)
    requires
        0 <= n <= children.len(),
        lifted(v, children.take(n), new_parent, now_ms).1 is Some,
    ensures
        lifted(v, children, new_parent, now_ms) == lifted(v, children.take(n), new_parent, now_ms),
    decreases children.len(),
{
    if n == children.len() {
        assert(children.take(n) =~= children);
    } else {
        assert(children.drop_last().take(n) =~= children.take(n));
        lemma_lifted_fails(v, children.drop_last(), n, new_parent, now_ms);
    }
}

/// The documents of a listing that are directly in a folder.
pub open spec fn documents_in(list: Seq<SummaryView>, folder_id: Seq<char>) -> Seq<Seq<char>>
    decreases list.len(),
{
    if list.len() == 0 {
        seq![]
    } else {
        let rest = documents_in(list.drop_last(), folder_id);
        if list.last().parent == Some(folder_id) {
            rest.push(list.last().document_id)
        } else {
            rest
        }
    }
}

/// A folder that is being deleted: where its children go, and what is left to move.
#[derive(Debug)]
pub struct FolderDeletion {
    /// Whether the folder is a tombstone already; then nothing is left to do.
    pub already_deleted: bool,
    /// The new place of the children.
    pub new_parent: Option<String>,
    /// How many folders were moved there.
    pub folders_moved: usize,
    /// The documents that the caller has to move there.
    pub documents: Vec<String>,
}

/// The model of a [`FolderDeletion`].
pub struct FolderDeletionView {
    pub already_deleted: bool,
    pub new_parent: Option<Seq<char>>,
    pub folders_moved: nat,
    pub documents: Seq<Seq<char>>,
}

impl DeepView for FolderDeletion {
    type V = FolderDeletionView;

    open spec fn deep_view(&self) -> FolderDeletionView {
        FolderDeletionView {
            already_deleted: self.already_deleted,
            new_parent: self.new_parent.deep_view(),
            folders_moved: self.folders_moved as nat,
            documents: self.documents.deep_view(),
        }
    }
}

/// What beginning to delete a folder does to the library, and what it reports. A tombstone is
/// left as it is.
pub open spec fn deletion_begun(v: LibraryView, folder_id: Seq<char>, now_ms: i64) -> (
    LibraryView,
    Result<FolderDeletionView, ErrorView>,
) {
    if !v.folders.contains_key(folder_id) {
        (v, Err(ErrorView::NotFound("folder "@ + folder_id)))
    } else if v.folders[folder_id].deleted_locally {
        (
            v,
            Ok(
                FolderDeletionView {
                    already_deleted: true,
                    new_parent: None,
                    folders_moved: 0,
                    documents: seq![],
                },
            ),
        )
    } else {
        let home = nonempty(v.folders[folder_id].parent);
        let children = child_folders(v, folder_id);
        let (after, error) = lifted(v, children, home, now_ms);
        if error is Some {
            (after, Err(error->0))
        } else {
            match documents::document_listing(after) {
                Err(e) => (after, Err(e)),
                Ok(list) => (
                    after,
                    Ok(
                        FolderDeletionView {
                            already_deleted: false,
                            new_parent: home,
                            folders_moved: children.len(),
                            documents: documents_in(list, folder_id),
                        },
                    ),
                ),
            }
        }
    }
}

/// The library with a folder turned into a tombstone.
pub open spec fn tombstoned(v: LibraryView, folder_id: Seq<char>, now_ms: i64) -> LibraryView {
    LibraryView {
        folders: v.folders.insert(
            folder_id,
            FolderRowView {
                metadata_json: edited_json(
                    v.folders[folder_id].metadata_json,
                    FolderEditView::Deleted,
                    now_ms,
                ),
                pending_push: true,
                deleted_locally: true,
                ..v.folders[folder_id]
            },
        ),
        ..v
    }
}

impl FolderDeletion {
    /// How many children leave the folder in all.
    pub fn outcome(&self) -> (r: DeleteFolderOutcome)
        ensures
            r.folders_moved == self.folders_moved,
            r.documents_moved == self.documents@.len(),
    {
        DeleteFolderOutcome {
            folders_moved: self.folders_moved,
            documents_moved: self.documents.len(),
        }
    }
}

/// The push that a changed folder waits for.
pub open spec fn pending_op(row: FolderRowView) -> FolderPushOpView {
    if row.deleted_locally {
        FolderPushOpView::Delete { folder_id: row.folder_id }
    } else {
        FolderPushOpView::Upsert { folder_id: row.folder_id, metadata_json: row.metadata_json }
    }
}

/// The pushes that the folders among `keys` wait for.
pub open spec fn pending_among(folders: Map<Seq<char>, FolderRowView>, keys: Seq<Seq<char>>) -> Seq<
    FolderPushOpView,
>
    decreases keys.len(),
{
    if keys.len() == 0 {
        seq![]
    } else {
        let rest = pending_among(folders, keys.drop_last());
        if folders[keys.last()].pending_push {
            rest.push(pending_op(folders[keys.last()]))
        } else {
            rest
        }
    }
}

/// The folder changes that the device has yet to hear of, in ascending order.
pub open spec fn pending_pushes(v: LibraryView) -> Seq<FolderPushOpView> {
    pending_among(v.folders, table::sorted_keys(v.folders))
}

/// The folders after a push of the given kind has reached the device. A deletion drops the
/// folder. An upload settles the folder, unless it has been deleted in the meantime: then
/// the deletion stays queued.
pub open spec fn settled(
    folders: Map<Seq<char>, FolderRowView>,
    folder_id: Seq<char>,
    kind: FolderPushKind,
) -> Map<Seq<char>, FolderRowView> {
    if kind == FolderPushKind::Delete {
        folders.remove(folder_id)
    } else if folders.contains_key(folder_id) && !folders[folder_id].deleted_locally {
        folders.insert(
            folder_id,
            FolderRowView {
                pending_push: false,
                last_synced_metadata_json: Some(folders[folder_id].metadata_json),
                ..folders[folder_id]
            },
        )
    } else {
        folders
    }
}

impl Library {
    /// Whether going up from `start` meets `target`.
    fn climbs_to(&self, start: &str, target: &str) -> (r: bool)
        requires
            self.wf(),
        ensures
            r == climb_meets(self@.folders, start@, target@, self@.folders.dom().len()),
    {
        proof {
            table::lemma_len::<FolderRow>(self.folders.listing());
        }
        let mut cur = start.to_owned();
        let mut left: usize = self.folders.len();
        let ghost all = self@.folders.dom().len();
        while left > 0
            invariant
                self.wf(),
                all == self@.folders.dom().len(),
                climb_meets(self@.folders, start@, target@, all) == climb_meets(
                    self@.folders,
                    cur@,
                    target@,
                    left as nat,
                ),
            decreases left,
        {
            if text::str_eq(cur.as_str(), target) {
                return true;
            }
            let parent = match self.folders.get(cur.as_str()) {
                Some(row) => nonempty_parent(&row.parent),
                None => None,
            };
            match parent {
                Some(p) => {
                    cur = p;
                },
                None => {
                    return false;
                },
            }
            left = left - 1;
        }
        false
    }

    /// Puts a folder under a new parent, or at the root, at a new position among its siblings.
    /// A folder cannot go into itself or into one of its descendants.
    pub fn reorder_folder(
        &mut self,
        folder_id: &str,
        new_parent: Option<&str>,
        position: SortIndex,
        now_ms: i64,
    ) -> (r: Result<(), CoreError>)
        requires
            old(self).wf(),
        ensures
            final(self).wf(),
            final(self).layout() == old(self).layout(),
            match r {
                Ok(_) => reorder_error(
                    old(self)@,
                    folder_id@,
                    new_parent.deep_view(),
                    position,
                ) is None && final(self)@ == reordered(
                    old(self)@,
                    folder_id@,
                    new_parent.deep_view(),
                    position,
                    now_ms,
                ),
                Err(e) => reorder_error(
                    old(self)@,
                    folder_id@,
                    new_parent.deep_view(),
                    position,
                ) == Some(e.deep_view()) && final(self)@ == old(self)@,
            },
            r is Ok ==> {
                let before = old(self)@.folders[folder_id@];
                let after = final(self)@.folders[folder_id@];
                &&& old(self)@.folders.contains_key(folder_id@)
                &&& after.parent == new_parent.deep_view()
                &&& after.sort_index == position
                &&& after.visible_name == before.visible_name
                &&& after.deleted_locally == before.deleted_locally
                &&& before.parent == new_parent.deep_view() ==> after.metadata_json
                    == before.metadata_json && after.pending_push == before.pending_push
                &&& before.parent != new_parent.deep_view() ==> after.pending_push && changes_text(
                    before.metadata_json,
                    after.metadata_json,
                    "parent"@,
                    match new_parent {
                        Some(p) => p@,
                        None => Seq::empty(),
                    },
                    now_ms,
                )
            },
    {
        if !position.is_finite() {
            return Err(CoreError::InvalidArgument("sort_index must be finite".to_owned()));
        }
        if text::opt_str_eq(new_parent, Some(folder_id)) {
            return Err(CoreError::InvalidArgument("cannot move a folder into itself".to_owned()));
        }
        let mut row = match self.folders.get(folder_id) {
            Some(row) => row.copy(),
            None => {
                return Err(CoreError::NotFound(text::concat2("folder ", folder_id)));
            },
        };
        if let Some(p) = new_parent {
            if self.climbs_to(p, folder_id) {
                return Err(
                    CoreError::InvalidArgument(
                        "cannot move a folder into one of its descendants".to_owned(),
                    ),
                );
            }
        }
        proof {
            table::lemma_key_has_row::<FolderRow>(self.folders.listing(), folder_id@);
        }
        if !text::opt_str_eq(text::as_opt_str(&row.parent), new_parent) {
            let place = match new_parent {
                Some(p) => p,
                None => "",
            };
            proof {
                reveal_strlit("");
                assert(""@ =~= Seq::empty());
            }
            let updated = edit_json(
                row.metadata_json.as_str(),
                FolderEdit::Parent(place),
                now_ms,
            );
            row.parent = text::to_opt_string(new_parent);
            row.metadata_json = updated;
            row.pending_push = true;
        }
        row.sort_index = position;
        self.folders.put(row);
        Ok(())
    }

    /// Renames a folder. A name of nothing but whitespace is refused.
    pub fn rename_folder(&mut self, folder_id: &str, new_name: &str, now_ms: i64) -> (r: Result<
        (),
        CoreError,
    >)
        requires
            old(self).wf(),
        ensures
            final(self).wf(),
            final(self).layout() == old(self).layout(),
            ({
                let v = old(self)@;
                let name = text::trimmed(new_name@);
                let json = edited_json(
                    v.folders[folder_id@].metadata_json,
                    FolderEditView::Name(name),
                    now_ms,
                );
                let error = if name.len() == 0 {
                    Some(ErrorView::InvalidArgument("folder name must not be empty"@))
                } else if !v.folders.contains_key(folder_id@) {
                    Some(ErrorView::NotFound("folder "@ + folder_id@))
                } else {
                    None
                };
                match r {
                    Ok(_) => error is None && final(self)@ == (LibraryView {
                        folders: v.folders.insert(
                            folder_id@,
                            FolderRowView {
                                visible_name: name,
                                metadata_json: json,
                                pending_push: true,
                                ..v.folders[folder_id@]
                            },
                        ),
                        ..v
                    }),
                    Err(e) => error == Some(e.deep_view()) && final(self)@ == v,
                }
            }),
            r is Ok ==> changes_text(
                old(self)@.folders[folder_id@].metadata_json,
                final(self)@.folders[folder_id@].metadata_json,
                "visibleName"@,
                text::trimmed(new_name@),
                now_ms,
            ),
    {
        let name = text::trim(new_name);
        if name.as_str().is_empty() {
            return Err(CoreError::InvalidArgument("folder name must not be empty".to_owned()));
        }
        let mut row = match self.folders.get(folder_id) {
            Some(row) => row.copy(),
            None => {
                return Err(CoreError::NotFound(text::concat2("folder ", folder_id)));
            },
        };
        proof {
            table::lemma_key_has_row::<FolderRow>(self.folders.listing(), folder_id@);
        }
        let updated = edit_json(
            row.metadata_json.as_str(),
            FolderEdit::Name(name.as_str()),
            now_ms,
        );
        row.visible_name = name;
        row.metadata_json = updated;
        row.pending_push = true;
        self.folders.put(row);
        Ok(())
    }

    /// The folders directly under a folder.
    fn collect_children(&self, folder_id: &str) -> (children: Vec<(String, SortIndex)>)
        requires
            self.wf(),
        ensures
            children.deep_view() == child_folders(self@, folder_id@),
    {
        let ghost rows = self.folders.listing();
        let ghost keys = table::keys_along::<FolderRow>(rows);
        proof {
            table::lemma_keys_along::<FolderRow>(rows);
            reveal_strlit("");
            assert(""@ =~= Seq::empty());
        }
        let mut children: Vec<(String, SortIndex)> = Vec::new();
        let mut i: usize = 0;
        proof {
            assert(keys.take(0) =~= seq![]);
            assert(children.deep_view() =~= seq![]);
        }
        while i < self.folders.len()
            invariant
                self.wf(),
                rows == self.folders.listing(),
                keys == table::keys_along::<FolderRow>(rows),
                ""@ == Seq::<char>::empty(),
                i <= rows.len(),
                children.deep_view() == children_among(self@.folders, keys.take(i as int), folder_id@),
            decreases rows.len() - i,
        {
            let row = self.folders.row(i);
            proof {
                table::lemma_by_key::<FolderRow>(rows, i as int);
                assert(keys.take(i + 1).drop_last() =~= keys.take(i as int));
                assert(keys.take(i + 1).last() == row.folder_id@);
            }
            let here = match &row.parent {
                Some(p) => p.as_str(),
                None => "",
            };
            if text::str_eq(here, folder_id) && !text::str_eq(row.folder_id.as_str(), folder_id)
                && !row.deleted_locally {
                let ghost before = children.deep_view();
                let child = (row.folder_id.clone(), row.sort_index);
                children.push(child);
                assert(children.deep_view() =~= before.push((child.0@, child.1)));
            }
            i = i + 1;
        }
        assert(keys.take(keys.len() as int) =~= keys);
        children
    }

    /// Begins to delete a folder: its child folders move up to its parent, and the documents
    /// in it are named, which the caller has to move up as well ([`Self::move_document`]).
    /// [`Self::finish_delete_folder`] then turns the folder into a tombstone. Nothing inside
    /// the folder is lost. If a step fails, what was moved before stays moved, and the
    /// deletion can be started again.
    pub fn delete_folder(&mut self, folder_id: &str, now_ms: i64) -> (r: Result<FolderDeletion, CoreError>)
        requires
            old(self).wf(),
        ensures
            final(self).wf(),
            final(self).layout() == old(self).layout(),
            (final(self)@, error::outcome(r)) == deletion_begun(old(self)@, folder_id@, now_ms),
    {
        let home = match self.folders.get(folder_id) {
            Some(row) => {
                if row.deleted_locally {
                    let documents: Vec<String> = Vec::new();
                    assert(documents.deep_view() =~= seq![]);
                    return Ok(
                        FolderDeletion {
                            already_deleted: true,
                            new_parent: None,
                            folders_moved: 0,
                            documents,
                        },
                    );
                }
                nonempty_parent(&row.parent)
            },
            None => {
                return Err(CoreError::NotFound(text::concat2("folder ", folder_id)));
            },
        };
        let children = self.collect_children(folder_id);
        let ghost list = children.deep_view();
        let ghost v = self@;
        let mut i: usize = 0;
        assert(list.take(0) =~= seq![]);
        while i < children.len()
            invariant
                self.wf(),
                self.layout() == old(self).layout(),
                list == children.deep_view(),
                i <= children.len(),
                lifted(v, list.take(i as int), home.deep_view(), now_ms) == (self@, None::<ErrorView>),
                v == old(self)@,
                v.folders.contains_key(folder_id@),
                !v.folders[folder_id@].deleted_locally,
                home.deep_view() == nonempty(v.folders[folder_id@].parent),
                list == child_folders(v, folder_id@),
            decreases children.len() - i,
        {
            proof {
                assert(list.take(i + 1).drop_last() =~= list.take(i as int));
                assert(list.take(i + 1).last() == (children[i as int].0@, children[i as int].1));
            }
            match self.reorder_folder(
                children[i].0.as_str(),
                text::as_opt_str(&home),
                children[i].1,
                now_ms,
            ) {
                Ok(_) => {},
                Err(e) => {
                    proof {
                        lemma_lifted_fails(v, list, i + 1, home.deep_view(), now_ms);
                    }
                    return Err(e);
                },
            }
            i = i + 1;
        }
        assert(list.take(list.len() as int) =~= list);
        let all = match self.list_documents() {
            Ok(all) => all,
            Err(e) => {
                return Err(e);
            },
        };
        let mut documents: Vec<String> = Vec::new();
        let ghost summaries = all.deep_view();
        let mut k: usize = 0;
        proof {
            assert(summaries.take(0) =~= seq![]);
            assert(documents.deep_view() =~= seq![]);
        }
        while k < all.len()
            invariant
                k <= all.len(),
                summaries == all.deep_view(),
                documents.deep_view() == documents_in(summaries.take(k as int), folder_id@),
            decreases all.len() - k,
        {
            proof {
                assert(summaries.take(k + 1).drop_last() =~= summaries.take(k as int));
                assert(summaries.take(k + 1).last() == all[k as int].deep_view());
            }
            if text::opt_str_eq(text::as_opt_str(&all[k].parent), Some(folder_id)) {
                let ghost before = documents.deep_view();
                let id = all[k].document_id.clone();
                documents.push(id);
                assert(documents.deep_view() =~= before.push(id@));
            }
            k = k + 1;
        }
        assert(summaries.take(summaries.len() as int) =~= summaries);
        Ok(
            FolderDeletion {
                already_deleted: false,
                new_parent: home,
                folders_moved: children.len(),
                documents,
            },
        )
    }

    /// Turns a folder whose contents have been moved into a tombstone, which stays until the
    /// device has deleted the folder.
    pub fn finish_delete_folder(&mut self, folder_id: &str, now_ms: i64) -> (r: Result<(), CoreError>)
        requires
            old(self).wf(),
        ensures
            final(self).wf(),
            final(self).layout() == old(self).layout(),
            match r {
                Ok(_) => old(self)@.folders.contains_key(folder_id@) && final(self)@ == tombstoned(
                    old(self)@,
                    folder_id@,
                    now_ms,
                ),
                Err(e) => !old(self)@.folders.contains_key(folder_id@) && e.deep_view()
                    == ErrorView::Sqlite("Query returned no rows"@) && final(self)@ == old(self)@,
            },
            r is Ok ==> {
                let before = old(self)@.folders[folder_id@];
                let after = final(self)@.folders[folder_id@];
                &&& after.deleted_locally
                &&& after.pending_push
                &&& after.visible_name == before.visible_name
                &&& after.parent == before.parent
                &&& changes_to_deleted(before.metadata_json, after.metadata_json, now_ms)
            },
    {
        let mut row = match self.folders.get(folder_id) {
            Some(row) => row.copy(),
            None => {
                return Err(CoreError::Sqlite("Query returned no rows".to_owned()));
            },
        };
        proof {
            table::lemma_key_has_row::<FolderRow>(self.folders.listing(), folder_id@);
        }
        let updated = edit_json(row.metadata_json.as_str(), FolderEdit::Deleted, now_ms);
        row.metadata_json = updated;
        row.pending_push = true;
        row.deleted_locally = true;
        self.folders.put(row);
        Ok(())
    }

    /// The folder changes that the device has yet to hear of, in ascending order.
    pub fn list_pending_folder_pushes(&self) -> (ops: Vec<FolderPushOp>)
        requires
            self.wf(),
        ensures
            ops.deep_view() == pending_pushes(self@),
    {
        let ghost rows = self.folders.listing();
        let ghost keys = table::keys_along::<FolderRow>(rows);
        proof {
            table::lemma_keys_along::<FolderRow>(rows);
        }
        let mut ops: Vec<FolderPushOp> = Vec::new();
        let mut i: usize = 0;
        proof {
            assert(keys.take(0) =~= seq![]);
            assert(ops.deep_view() =~= seq![]);
        }
        while i < self.folders.len()
            invariant
                self.wf(),
                rows == self.folders.listing(),
                keys == table::keys_along::<FolderRow>(rows),
                i <= rows.len(),
                ops.deep_view() == pending_among(self@.folders, keys.take(i as int)),
            decreases rows.len() - i,
        {
            let row = self.folders.row(i);
            proof {
                table::lemma_by_key::<FolderRow>(rows, i as int);
                assert(keys.take(i + 1).drop_last() =~= keys.take(i as int));
                assert(keys.take(i + 1).last() == row.folder_id@);
            }
            if row.pending_push {
                let ghost before = ops.deep_view();
                let op = if row.deleted_locally {
                    FolderPushOp::Delete { folder_id: row.folder_id.clone() }
                } else {
                    FolderPushOp::Upsert {
                        folder_id: row.folder_id.clone(),
                        metadata_json: row.metadata_json.clone(),
                    }
                };
                ops.push(op);
                assert(ops.deep_view() =~= before.push(op.deep_view()));
            }
            i = i + 1;
        }
        assert(keys.take(keys.len() as int) =~= keys);
        ops
    }

    /// Notes that a folder change has reached the device. `kind` is what was pushed, not what
    /// the folder has become since.
    pub fn mark_folder_pushed(&mut self, folder_id: &str, kind: FolderPushKind)
        requires
            old(self).wf(),
        ensures
            final(self).wf(),
            final(self).layout() == old(self).layout(),
            final(self)@ == (LibraryView {
                folders: settled(old(self)@.folders, folder_id@, kind),
                ..old(self)@
            }),
    {
        if kind == FolderPushKind::Delete {
            self.folders.remove(folder_id);
        } else {
            let row = match self.folders.get(folder_id) {
                Some(row) => if row.deleted_locally {
                    None
                } else {
                    Some(row.copy())
                },
                None => None,
            };
            if let Some(mut row) = row {
                proof {
                    table::lemma_key_has_row::<FolderRow>(self.folders.listing(), folder_id@);
                }
                row.pending_push = false;
                row.last_synced_metadata_json = Some(row.metadata_json.clone());
                self.folders.put(row);
            }
        }
    }
}

/// A parent with the empty text read as no parent.
fn nonempty_parent(parent: &Option<String>) -> (r: Option<String>)
    ensures
        r.deep_view() == nonempty(parent.deep_view()),
{
    match parent {
        Some(p) => if p.as_str().is_empty() {
            None
        } else {
            Some(p.clone())
        },
        None => None,
    }
}

/// What is queued for a new folder says what its row says: its parent, the empty text at the
/// root, and its name; it is a folder, and it is not deleted.
pub proof fn new_folder_says_its_name_and_place(
    name: Seq<char>,
    parent: Option<Seq<char>>,
    now_ms: i64,
)
    ensures
        ({
            let fields = new_folder_fields(name, parent, now_ms);
            &&& fields.contains_key("visibleName"@)
            &&& fields["visibleName"@] == json::string_value(name)
            &&& fields.contains_key("parent"@)
            &&& parent matches Some(p) ==> fields["parent"@] == json::string_value(p)
            &&& parent is None ==> fields["parent"@] == json::string_value(Seq::empty())
            &&& fields.contains_key("type"@)
            &&& fields["type"@] == json::string_value("CollectionType"@)
            &&& fields.contains_key("deleted"@)
            &&& fields["deleted"@] == json::bool_value(false)
        }),
{
    lemma_keys_differ();
}

/// A change to a folder's metadata sets the field that it is about, and leaves every other field
/// but the marks of a local edit, and a type where there was none, as it was.
pub proof fn folder_edit_changes_one_field(
    fields: Map<Seq<char>, serde_json::Value>,
    edit: FolderEditView,
    now_ms: i64,
    other: Seq<char>,
)
    requires
        other != "lastModified"@,
        other != "modified"@,
        other != "metadatamodified"@,
        other != "synced"@,
        other != "type"@,
    ensures
        ({
            let after = edited_fields(fields, edit, now_ms);
            let key = match edit {
                FolderEditView::Parent(_) => "parent"@,
                FolderEditView::Name(_) => "visibleName"@,
                FolderEditView::Deleted => "deleted"@,
            };
            &&& after.contains_key(key)
            &&& after[key] == (match edit {
                FolderEditView::Parent(p) => json::string_value(p),
                FolderEditView::Name(n) => json::string_value(n),
                FolderEditView::Deleted => json::bool_value(true),
            })
            &&& other != key ==> (after.contains_key(other) <==> fields.contains_key(other))
            &&& other != key && fields.contains_key(other) ==> after[other] == fields[other]
            &&& fields.contains_key("type"@) ==> after["type"@] == fields["type"@]
            &&& after.contains_key("type"@)
        }),
{
    lemma_keys_differ();
}

proof fn lemma_pending_among(
    folders: Map<Seq<char>, FolderRowView>,
    keys: Seq<Seq<char>>,
)
    ensures
        forall|i: int|
            0 <= i < keys.len() && folders[#[trigger] keys[i]].pending_push ==> pending_among(
                folders,
                keys,
            ).contains(pending_op(folders[keys[i]])),
        forall|n: int|
            0 <= n < pending_among(folders, keys).len() ==> exists|i: int|
                0 <= i < keys.len() && folders[#[trigger] keys[i]].pending_push
                    && #[trigger] pending_among(folders, keys)[n] == pending_op(folders[keys[i]]),
        pending_among(folders, keys).len() <= keys.len(),
    decreases keys.len(),
{
    if keys.len() > 0 {
        let init = keys.drop_last();
        let rest = pending_among(folders, init);
        let all = pending_among(folders, keys);
        lemma_pending_among(folders, init);
        assert forall|i: int|
            0 <= i < keys.len() && folders[#[trigger] keys[i]].pending_push implies all.contains(
            pending_op(folders[keys[i]]),
        ) by {
            if i < init.len() {
                assert(init[i] == keys[i]);
                let op = pending_op(folders[keys[i]]);
                assert(rest.contains(op));
                let n = choose|n: int| 0 <= n < rest.len() && rest[n] == op;
                assert(all[n] == op);
            } else {
                assert(all[all.len() - 1] == pending_op(folders[keys[i]]));
            }
        }
        assert forall|n: int| 0 <= n < all.len() implies exists|i: int|
            0 <= i < keys.len() && folders[#[trigger] keys[i]].pending_push && #[trigger] all[n]
                == pending_op(folders[keys[i]]) by {
            if n < rest.len() {
                assert(all[n] == rest[n]);
                let i = choose|i: int|
                    0 <= i < init.len() && folders[#[trigger] init[i]].pending_push && rest[n]
                        == pending_op(folders[init[i]]);
                assert(keys[i] == init[i]);
            } else {
                assert(folders[keys[keys.len() - 1]].pending_push);
            }
        }
    }
}

/// Whether a push is what a folder waits for: a deletion for a tombstone, and for any other folder
/// an upload of the metadata that it has.
pub open spec fn is_push_of(op: FolderPushOpView, row: FolderRowView) -> bool {
    row.pending_push && match op {
        FolderPushOpView::Delete { folder_id } => row.deleted_locally && folder_id == row.folder_id,
        FolderPushOpView::Upsert { folder_id, metadata_json } => !row.deleted_locally && folder_id
            == row.folder_id && metadata_json == row.metadata_json,
    }
}

/// Whether a push is what some folder waits for.
pub open spec fn some_folder_waits_for(v: LibraryView, op: FolderPushOpView) -> bool {
    exists|id: Seq<char>| #[trigger]
        v.folders.contains_key(id) && is_push_of(op, v.folders[id])
}

/// Every change to a folder that the device has yet to hear of is queued, and nothing else: a
/// tombstone as a deletion, and any other folder as an upload of the metadata that it has.
pub proof fn every_pending_change_is_queued(v: LibraryView)
    requires
        table::lists_keys(v.folders, table::sorted_keys(v.folders)),
    ensures
        forall|id: Seq<char>| #[trigger]
            v.folders.contains_key(id) && v.folders[id].pending_push ==> exists|n: int|
                0 <= n < pending_pushes(v).len() && is_push_of(
                    #[trigger] pending_pushes(v)[n],
                    v.folders[id],
                ),
        forall|n: int|
            0 <= n < pending_pushes(v).len() ==> some_folder_waits_for(
                v,
                #[trigger] pending_pushes(v)[n],
            ),
{
    let keys = table::sorted_keys(v.folders);
    let ops = pending_pushes(v);
    lemma_pending_among(v.folders, keys);
    assert forall|id: Seq<char>| #[trigger]
        v.folders.contains_key(id) && v.folders[id].pending_push implies exists|n: int|
        0 <= n < ops.len() && is_push_of(#[trigger] ops[n], v.folders[id]) by {
        assert(keys.contains(id));
        let i = choose|i: int| 0 <= i < keys.len() && keys[i] == id;
        assert(v.folders[keys[i]].pending_push);
        let op = pending_op(v.folders[id]);
        assert(ops.contains(op));
        let n = choose|n: int| 0 <= n < ops.len() && ops[n] == op;
        assert(is_push_of(ops[n], v.folders[id]));
    }
    assert forall|n: int| 0 <= n < ops.len() implies some_folder_waits_for(v, #[trigger] ops[n]) by {
        let i = choose|i: int|
            0 <= i < keys.len() && v.folders[#[trigger] keys[i]].pending_push && ops[n]
                == pending_op(v.folders[keys[i]]);
        assert(keys.contains(keys[i]));
        assert(v.folders.contains_key(keys[i]));
        assert(is_push_of(ops[n], v.folders[keys[i]]));
    }
}

/// What the device shows of a folder is taken over: its parent, and, unless a local change waits
/// to be pushed, its name and its metadata; and it is noted as what the device was last known to
/// have. A folder that is new is put where it is asked for, with nothing to push.
pub proof fn mirroring_takes_over_the_folder(
    all: Map<Seq<char>, FolderRowView>,
    folder_id: Seq<char>,
    parent: Option<Seq<char>>,
    visible_name: Seq<char>,
    metadata_json: Seq<char>,
    position: SortIndex,
)
    ensures
        ({
            let row = mirrored(all, folder_id, parent, visible_name, metadata_json, position);
            &&& row.parent == parent
            &&& row.last_synced_metadata_json == Some(metadata_json)
            &&& !all.contains_key(folder_id) || !all[folder_id].pending_push ==> row.visible_name
                == visible_name && row.metadata_json == metadata_json && !row.pending_push
            &&& all.contains_key(folder_id) && all[folder_id].pending_push ==> row.visible_name
                == all[folder_id].visible_name && row.metadata_json
                == all[folder_id].metadata_json && row.pending_push
            &&& all.contains_key(folder_id) ==> row.folder_id == all[folder_id].folder_id
            &&& !all.contains_key(folder_id) ==> row.folder_id == folder_id && row.sort_index
                == position && !row.deleted_locally
        }),
{
}

/// A folder whose upload has reached the device is as it was, but that nothing waits to be pushed,
/// and that the device is known to have its metadata.
pub proof fn uploaded_folder_stays_as_it_was(
    all: Map<Seq<char>, FolderRowView>,
    folder_id: Seq<char>,
    other: Seq<char>,
)
    requires
        all.contains_key(folder_id),
        !all[folder_id].deleted_locally,
        other != folder_id,
    ensures
        ({
            let before = all[folder_id];
            let after = settled(all, folder_id, FolderPushKind::Upsert)[folder_id];
            &&& after.visible_name == before.visible_name
            &&& after.parent == before.parent
            &&& after.sort_index == before.sort_index
            &&& after.metadata_json == before.metadata_json
            &&& !after.pending_push
            &&& !after.deleted_locally
            &&& after.last_synced_metadata_json == Some(before.metadata_json)
        }),
        settled(all, folder_id, FolderPushKind::Delete).contains_key(other) == all.contains_key(
            other,
        ),
        all.contains_key(other) ==> settled(all, folder_id, FolderPushKind::Delete)[other]
            == all[other],
        settled(all, other, FolderPushKind::Upsert)[folder_id] == all[folder_id],
{
}

/// A folder is listed as its row has it: under its identifier, with its name and its position, and
/// in the folder that it lies in, if that is not the root.
pub proof fn listed_folder_says_what_its_row_says(row: FolderRowView)
    ensures
        folder_entry(row).folder_id == row.folder_id,
        folder_entry(row).visible_name == row.visible_name,
        folder_entry(row).sort_index == row.sort_index,
        row.parent matches Some(p) ==> p.len() > 0 ==> folder_entry(row).parent == Some(p),
        folder_entry(row).parent matches Some(p) ==> p.len() > 0 && row.parent == Some(p),
{
}

/// Whether going up from a folder leads to another one is told step by step: a folder leads to
/// itself, and to whatever the folder that it lies in leads to.
pub proof fn climbing_goes_from_parent_to_parent(
    folders: Map<Seq<char>, FolderRowView>,
    start: Seq<char>,
    target: Seq<char>,
    steps: nat,
)
    ensures
        climb_meets(folders, target, target, steps + 1),
        folders.contains_key(start) ==> (folders[start].parent matches Some(p) ==> p.len() > 0
            && climb_meets(folders, p, target, steps) ==> climb_meets(
            folders,
            start,
            target,
            steps + 1,
        )),
        start != target && (!folders.contains_key(start) || folders[start].parent is None
            || folders[start].parent->0.len() == 0) ==> !climb_meets(
            folders,
            start,
            target,
            steps + 1,
        ),
{
}

/// The last position in a folder is that of one of the folders in it, and none of them comes after
/// it.
pub proof fn nothing_comes_after_the_last_position(
    folders: Map<Seq<char>, FolderRowView>,
    parent: Option<Seq<char>>,
    max: SortIndex,
)
    requires
        is_last_position(folders, parent, max),
    ensures
        exists|k: Seq<char>| #[trigger]
            folders.contains_key(k) && folders[k].sort_index == max && (folders[k].parent == parent
                || (parent is None && folders[k].parent == Some(Seq::<char>::empty())) || (parent
                == Some(Seq::<char>::empty()) && folders[k].parent is None)),
        forall|k: Seq<char>| #[trigger]
            folders.contains_key(k) && folders[k].parent == parent ==> !(rows::ordinal(max)
                < rows::ordinal(folders[k].sort_index)),
        parent is None ==> forall|k: Seq<char>| #[trigger]
            folders.contains_key(k) && folders[k].parent == Some(Seq::<char>::empty()) ==> !(
            rows::ordinal(max) < rows::ordinal(folders[k].sort_index)),
{
    let k = choose|k: Seq<char>| #[trigger]
        folders.contains_key(k) && parent_text(folders[k].parent) == parent_text(parent)
            && folders[k].sort_index == max;
    assert(folders.contains_key(k));
}

/// A new folder waits to be pushed, and what is queued for it says what its row says: its name, and
/// the folder that it lies in, the empty text at the root.
pub proof fn new_folder_is_queued_as_it_is(
    folder_id: Seq<char>,
    name: Seq<char>,
    parent: Option<Seq<char>>,
    position: SortIndex,
    now_ms: i64,
)
    ensures
        ({
            let row = new_folder_row(folder_id, name, parent, position, now_ms);
            &&& row.folder_id == folder_id
            &&& row.visible_name == name
            &&& row.parent == parent
            &&& row.sort_index == position
            &&& row.pending_push
            &&& !row.deleted_locally
            &&& row.last_synced_metadata_json is None
            &&& exists|fields: Map<Seq<char>, serde_json::Value>| {
                &&& row.metadata_json == #[trigger] json::compact_json(json::object_value(fields))
                &&& fields.contains_key("visibleName"@)
                &&& fields["visibleName"@] == json::string_value(name)
                &&& fields.contains_key("parent"@)
                &&& parent matches Some(p) ==> fields["parent"@] == json::string_value(p)
                &&& parent is None ==> fields["parent"@] == json::string_value(Seq::empty())
            }
        }),
{
    new_folder_says_its_name_and_place(name, parent, now_ms);
    let fields = new_folder_fields(name, parent, now_ms);
    let row = new_folder_row(folder_id, name, parent, position, now_ms);
    assert(row.metadata_json == json::compact_json(json::object_value(fields)));
}

/// A folder that is moved has its new parent and position; a new parent is queued for the device,
/// and what is queued says it. A new position alone changes nothing else.
pub proof fn moved_folder_is_queued_with_its_parent(
    row: FolderRowView,
    new_parent: Option<Seq<char>>,
    position: SortIndex,
    now_ms: i64,
)
    ensures
        ({
            let after = replaced(row, new_parent, position, now_ms);
            &&& after.folder_id == row.folder_id
            &&& after.parent == new_parent
            &&& after.sort_index == position
            &&& after.visible_name == row.visible_name
            &&& after.deleted_locally == row.deleted_locally
            &&& after.last_synced_metadata_json == row.last_synced_metadata_json
            &&& row.parent == new_parent ==> after.pending_push == row.pending_push
                && after.metadata_json == row.metadata_json
            &&& row.parent != new_parent ==> after.pending_push && exists|
                fields: Map<Seq<char>, serde_json::Value>,
            | {
                &&& after.metadata_json == #[trigger] json::compact_json(
                    json::object_value(fields),
                )
                &&& fields.contains_key("parent"@)
                &&& new_parent matches Some(p) ==> fields["parent"@] == json::string_value(p)
                &&& new_parent is None ==> fields["parent"@] == json::string_value(Seq::empty())
            }
        }),
{
    lemma_keys_differ();
    if row.parent != new_parent {
        let fields = edited_fields(
            json::fields_of_text(row.metadata_json),
            FolderEditView::Parent(parent_text(new_parent)),
            now_ms,
        );
        let after = replaced(row, new_parent, position, now_ms);
        assert(after.metadata_json == json::compact_json(json::object_value(fields)));
    }
}

/// A folder that is deleted stays as a tombstone until the device has heard of it, and what is
/// queued for it says that it is deleted; the other folders stay as they are.
pub proof fn deleted_folder_is_queued_as_deleted(
    v: LibraryView,
    folder_id: Seq<char>,
    now_ms: i64,
    other: Seq<char>,
)
    ensures
        ({
            let after = tombstoned(v, folder_id, now_ms).folders;
            &&& after.contains_key(folder_id)
            &&& after[folder_id].deleted_locally
            &&& after[folder_id].pending_push
            &&& after[folder_id].visible_name == v.folders[folder_id].visible_name
            &&& after[folder_id].parent == v.folders[folder_id].parent
            &&& exists|fields: Map<Seq<char>, serde_json::Value>| {
                &&& after[folder_id].metadata_json == #[trigger] json::compact_json(
                    json::object_value(fields),
                )
                &&& fields.contains_key("deleted"@)
                &&& fields["deleted"@] == json::bool_value(true)
            }
            &&& other != folder_id ==> after.contains_key(other) == v.folders.contains_key(other)
                && after[other] == v.folders[other]
        }),
{
    lemma_keys_differ();
    let fields = edited_fields(
        json::fields_of_text(v.folders[folder_id].metadata_json),
        FolderEditView::Deleted,
        now_ms,
    );
    assert(tombstoned(v, folder_id, now_ms).folders[folder_id].metadata_json == json::compact_json(
        json::object_value(fields),
    ));
}

} // verus!

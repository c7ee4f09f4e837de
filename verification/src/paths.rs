//! Where the parts of a library live.

use vstd::prelude::*;

use crate::hash::Sha256Hex;
use crate::text;

verus! {

/// `name` inside the directory `base`; an absolute name stands for itself.
pub open spec fn joined(base: Seq<char>, name: Seq<char>) -> Seq<char> {
    if base.len() == 0 || (name.len() > 0 && name[0] == '/') {
        name
    } else if base.last() == '/' {
        base + name
    } else {
        base + seq!['/'] + name
    }
}

/// The path of `name` inside the directory `base`.
pub fn join(base: &str, name: &str) -> (r: String)
    ensures
        r@ == joined(base@, name@),
{
    let n: usize = base.unicode_len();
    if n == 0 || (name.unicode_len() > 0 && name.get_char(0) == '/') {
        name.to_owned()
    } else if base.get_char(n - 1) == '/' {
        text::concat2(base, name)
    } else {
        proof {
            reveal_strlit("/");
            assert("/"@ =~= seq!['/']);
        }
        text::concat3(base, "/", name)
    }
}

/// The layout of a library directory.
pub struct LibraryPaths {
    pub root: String,
    pub blobs: String,
    pub tmp: String,
    pub logs: String,
    pub db: String,
    pub library_json: String,
}

/// The place of the blob with the given digest under `blobs`: two levels of
/// directories, each named by the next two digits of the digest.
pub open spec fn blob_place(blobs: Seq<char>, digest: Seq<char>) -> Seq<char> {
    joined(joined(joined(blobs, digest.subrange(0, 2)), digest.subrange(2, 4)), digest)
}

impl LibraryPaths {
    /// Whether every part lies where the layout puts it.
    pub open spec fn wf(&self) -> bool {
        &&& self.blobs@ == joined(self.root@, "blobs"@)
        &&& self.tmp@ == joined(self.root@, "tmp"@)
        &&& self.logs@ == joined(self.root@, "logs"@)
        &&& self.db@ == joined(self.root@, "db.sqlite"@)
        &&& self.library_json@ == joined(self.root@, "library.json"@)
    }

    /// The layout of the library at `root`.
    pub fn new(root: &str) -> (p: Self)
        ensures
            p.wf(),
            p.root@ == root@,
            p.blobs@ == joined(root@, "blobs"@),
            p.tmp@ == joined(root@, "tmp"@),
            p.logs@ == joined(root@, "logs"@),
            p.db@ == joined(root@, "db.sqlite"@),
            p.library_json@ == joined(root@, "library.json"@),
    {
        LibraryPaths {
            root: root.to_owned(),
            blobs: join(root, "blobs"),
            tmp: join(root, "tmp"),
            logs: join(root, "logs"),
            db: join(root, "db.sqlite"),
            library_json: join(root, "library.json"),
        }
    }

    /// Where the blob with the given digest is kept.
    pub fn blob_path(&self, hash: &Sha256Hex) -> (r: String)
        ensures
            r@ == blob_place(self.blobs@, hash@),
    {
        let digest = hash.as_str();
        let outer = join(self.blobs.as_str(), digest.substring_char(0, 2));
        let inner = join(outer.as_str(), digest.substring_char(2, 4));
        join(inner.as_str(), digest)
    }
}

/// The model of a path: whether it starts at the root of the file system, and the
/// names along it.
pub struct DirView {
    pub absolute: bool,
    pub names: Seq<Seq<char>>,
}

/// A path as the list of names along it, without empty names and without `.`
/// except at the start of a relative path.
#[derive(Debug, PartialEq, Eq)]
pub struct DirPath {
    pub absolute: bool,
    pub names: Vec<String>,
}

impl DeepView for DirPath {
    type V = DirView;

    open spec fn deep_view(&self) -> DirView {
        DirView { absolute: self.absolute, names: self.names.deep_view() }
    }
}

/// Whether a piece between two separators counts as a name, given the names before it
/// and whether the path is absolute.
pub open spec fn is_name(piece: Seq<char>, first: bool, absolute: bool) -> bool {
    piece.len() > 0 && (piece != seq!['.'] || (first && !absolute))
}

/// The names along a path text: `done` are those before, `piece` is the part read
/// since the last separator, `rest` is still to be read.
pub open spec fn names_from(
    done: Seq<Seq<char>>,
    piece: Seq<char>,
    rest: Seq<char>,
    first: bool,
    absolute: bool,
) -> Seq<Seq<char>>
    decreases rest.len(),
{
    let closed = if is_name(piece, first, absolute) {
        done.push(piece)
    } else {
        done
    };
    if rest.len() == 0 {
        closed
    } else if rest[0] == '/' {
        names_from(closed, seq![], rest.drop_first(), false, absolute)
    } else {
        names_from(done, piece.push(rest[0]), rest.drop_first(), first, absolute)
    }
}

/// The path that a text denotes.
pub open spec fn dir_of_text(s: Seq<char>) -> DirView {
    let absolute = s.len() > 0 && s[0] == '/';
    DirView { absolute, names: names_from(seq![], seq![], s, true, absolute) }
}

/// Whether the path `p` lies at or below `root`.
pub open spec fn lies_under(p: DirView, root: DirView) -> bool {
    p.absolute == root.absolute && root.names.is_prefix_of(p.names)
}

/// Whether a path leads nowhere but further in: it is relative, ends in a name, and never steps
/// up.
pub open spec fn leads_inside(path: Seq<char>) -> bool {
    let d = dir_of_text(path);
    !d.absolute && d.names.len() > 0 && d.names.last() != seq!['.'] && !d.names.contains(
        seq!['.', '.'],
    )
}

/// Whether the text `target` denotes a path at or below the directory `dest` that does not step
/// up again once it is there.
pub open spec fn stays_below(target: Seq<char>, dest: Seq<char>) -> bool {
    let t = dir_of_text(target);
    let d = dir_of_text(dest);
    lies_under(t, d) && forall|i: int|
        d.names.len() <= i < t.names.len() ==> (#[trigger] t.names[i]) != seq!['.', '.']
}

/// Tells whether a path leads nowhere but further in.
pub fn is_inside(path: &str) -> (r: bool)
    ensures
        r == leads_inside(path@),
{
    let d = DirPath::parse(path);
    if d.absolute || d.names.len() == 0 {
        return false;
    }
    proof {
        reveal_strlit(".");
        reveal_strlit("..");
        assert("."@ =~= seq!['.']);
        assert(".."@ =~= seq!['.', '.']);
    }
    let ghost names = d.names.deep_view();
    assert(names.last() == d.names@.last()@);
    if text::str_eq(d.names[d.names.len() - 1].as_str(), ".") {
        return false;
    }
    let mut i: usize = 0;
    while i < d.names.len()
        invariant
            i <= d.names.len(),
            names == d.names.deep_view(),
            ".."@ == seq!['.', '.'],
            names == dir_of_text(path@).names,
            forall|j: int| 0 <= j < i ==> (#[trigger] names[j]) != seq!['.', '.'],
        decreases d.names.len() - i,
    {
        if text::str_eq(d.names[i].as_str(), "..") {
            assert(names[i as int] == seq!['.', '.']);
            return false;
        }
        i = i + 1;
    }
    true
}

/// The names along a text that goes on behind a separator.
proof fn lemma_names_split(
    done: Seq<Seq<char>>,
    piece: Seq<char>,
    a: Seq<char>,
    b: Seq<char>,
    first: bool,
    absolute: bool,
)
    ensures
        names_from(done, piece, a + seq!['/'] + b, first, absolute) == names_from(
            names_from(done, piece, a, first, absolute),
            seq![],
            b,
            false,
            absolute,
        ),
    decreases a.len(),
{
    let all = a + seq!['/'] + b;
    if a.len() == 0 {
        assert(all[0] == '/');
        assert(all.drop_first() =~= b);
    } else {
        assert(all[0] == a[0]);
        assert(all.drop_first() =~= a.drop_first() + seq!['/'] + b);
        let closed = if is_name(piece, first, absolute) {
            done.push(piece)
        } else {
            done
        };
        if a[0] == '/' {
            lemma_names_split(closed, seq![], a.drop_first(), b, false, absolute);
        } else {
            lemma_names_split(done, piece.push(a[0]), a.drop_first(), b, first, absolute);
        }
    }
}

/// Whether none of the names from position `n` on steps up.
spec fn no_step_up(names: Seq<Seq<char>>, n: int) -> bool {
    forall|i: int| n <= i < names.len() ==> (#[trigger] names[i]) != seq!['.', '.']
}

/// The same text adds no step up wherever it stands, if it adds none at the start.
proof fn lemma_no_step_up(
    here: Seq<Seq<char>>,
    there: Seq<Seq<char>>,
    piece: Seq<char>,
    rest: Seq<char>,
    first_here: bool,
    first_there: bool,
    absolute: bool,
)
    requires
        no_step_up(names_from(here, piece, rest, first_here, false), here.len() as int),
    ensures
        here.is_prefix_of(names_from(here, piece, rest, first_here, false)),
        there.is_prefix_of(names_from(there, piece, rest, first_there, absolute)),
        no_step_up(names_from(there, piece, rest, first_there, absolute), there.len() as int),
    decreases rest.len(),
{
    let all = names_from(here, piece, rest, first_here, false);
    let named_here = is_name(piece, first_here, false);
    let named_there = is_name(piece, first_there, absolute);
    let closed_here = if named_here {
        here.push(piece)
    } else {
        here
    };
    let closed_there = if named_there {
        there.push(piece)
    } else {
        there
    };
    if rest.len() == 0 {
        if named_there && piece == seq!['.', '.'] {
            assert(piece.len() == 2 && seq!['.'].len() == 1);
            assert(all[here.len() as int] == piece);
        }
    } else if rest[0] == '/' {
        assert(all == names_from(closed_here, seq![], rest.drop_first(), false, false));
        lemma_prefix(closed_here, seq![], rest.drop_first(), false, false);
        if piece == seq!['.', '.'] {
            assert(piece.len() == 2 && seq!['.'].len() == 1);
            assert(closed_here[here.len() as int] == piece);
            assert(all[here.len() as int] == piece);
        }
        assert(no_step_up(all, closed_here.len() as int));
        lemma_no_step_up(
            closed_here,
            closed_there,
            seq![],
            rest.drop_first(),
            false,
            false,
            absolute,
        );
        let after = names_from(closed_there, seq![], rest.drop_first(), false, absolute);
        assert(after == names_from(there, piece, rest, first_there, absolute));
        assert forall|i: int| there.len() <= i < after.len() implies (#[trigger] after[i]) != seq![
            '.',
            '.',
        ] by {
            if i < closed_there.len() {
                assert(after[i] == closed_there[i]);
            }
        }
        assert(there =~= after.take(there.len() as int));
        assert(here =~= all.take(here.len() as int));
    } else {
        lemma_no_step_up(
            here,
            there,
            piece.push(rest[0]),
            rest.drop_first(),
            first_here,
            first_there,
            absolute,
        );
    }
}

/// Reading on only adds names.
proof fn lemma_prefix(
    done: Seq<Seq<char>>,
    piece: Seq<char>,
    rest: Seq<char>,
    first: bool,
    absolute: bool,
)
    ensures
        done.is_prefix_of(names_from(done, piece, rest, first, absolute)),
    decreases rest.len(),
{
    let closed = if is_name(piece, first, absolute) {
        done.push(piece)
    } else {
        done
    };
    if rest.len() > 0 {
        if rest[0] == '/' {
            lemma_prefix(closed, seq![], rest.drop_first(), false, absolute);
            let all = names_from(closed, seq![], rest.drop_first(), false, absolute);
            assert(done =~= all.take(done.len() as int));
        } else {
            lemma_prefix(done, piece.push(rest[0]), rest.drop_first(), first, absolute);
        }
    }
}

proof fn lemma_step_up(done: Seq<Seq<char>>, after: Seq<char>, first: bool, absolute: bool)
    ensures
        names_from(done, seq![], seq!['.', '.', '/'] + after, first, absolute).contains(
            seq!['.', '.'],
        ),
{
    let path = seq!['.', '.', '/'] + after;
    let one = path.drop_first();
    let two = one.drop_first();
    let up = seq!['.', '.'];
    assert(two.drop_first() =~= after);
    assert(Seq::<char>::empty().push('.').push('.') =~= up);
    assert(names_from(done, seq![], path, first, absolute) == names_from(
        done,
        Seq::<char>::empty().push('.'),
        one,
        first,
        absolute,
    ));
    assert(names_from(done, Seq::<char>::empty().push('.'), one, first, absolute) == names_from(
        done,
        up,
        two,
        first,
        absolute,
    ));
    assert(up != seq!['.']) by {
        assert(up.len() == 2);
    }
    let all = names_from(done.push(up), seq![], after, false, absolute);
    assert(names_from(done, up, two, first, absolute) == all);
    lemma_prefix(done.push(up), seq![], after, false, absolute);
    assert(all[done.len() as int] == done.push(up)[done.len() as int]);
}

/// A path that steps up, at its beginning or further on, leads out; so does an absolute one, and
/// an empty one leads nowhere.
pub proof fn stepping_up_leads_out(before: Seq<char>, after: Seq<char>)
    ensures
        !leads_inside(seq!['.', '.', '/'] + after),
        !leads_inside(before + seq!['/', '.', '.', '/'] + after),
        !leads_inside(seq!['/'] + after),
        !leads_inside(seq![]),
{
    lemma_step_up(seq![], after, true, false);
    let path = before + seq!['/', '.', '.', '/'] + after;
    let absolute = path[0] == '/';
    let tail = seq!['.', '.', '/'] + after;
    assert(path =~= before + seq!['/'] + tail);
    lemma_names_split(seq![], seq![], before, tail, true, absolute);
    lemma_step_up(
        names_from(seq![], seq![], before, true, absolute),
        after,
        false,
        absolute,
    );
}

/// A path that leads nowhere but further in stays below every directory that it is joined to.
pub proof fn joined_path_stays_below(dest: Seq<char>, path: Seq<char>)
    requires
        leads_inside(path),
    ensures
        stays_below(joined(dest, path), dest),
{
    let inner = dir_of_text(path).names;
    let target = joined(dest, path);
    assert(no_step_up(inner, 0)) by {
        assert forall|i: int| 0 <= i < inner.len() implies (#[trigger] inner[i]) != seq!['.', '.'] by {
            assert(inner.contains(inner[i]));
        }
    }
    if dest.len() == 0 {
        assert(dir_of_text(dest).names =~= seq![]);
    } else {
        let absolute = dest[0] == '/';
        let base = if dest.last() == '/' {
            dest.drop_last()
        } else {
            dest
        };
        assert(target =~= base + seq!['/'] + path);
        assert(target[0] == dest[0]);
        lemma_names_split(seq![], seq![], base, path, true, absolute);
        let outer = names_from(seq![], seq![], base, true, absolute);
        if dest.last() == '/' {
            assert(dest =~= base + seq!['/'] + Seq::<char>::empty());
            lemma_names_split(seq![], seq![], base, seq![], true, absolute);
        }
        assert(dir_of_text(dest).names == outer);
        lemma_no_step_up(seq![], outer, seq![], path, true, false, absolute);
    }
}

impl DirPath {
    /// Reads a path from its text.
    pub fn parse(s: &str) -> (p: Self)
        ensures
            p.deep_view() == dir_of_text(s@),
    {
        let n: usize = s.unicode_len();
        let absolute = n > 0 && s.get_char(0) == '/';
        let v = text::chars_of(s);
        let mut names: Vec<String> = Vec::new();
        let mut start: usize = 0;
        let mut i: usize = 0;
        let mut first = true;
        proof {
            reveal_strlit(".");
            assert("."@ =~= seq!['.']);
            assert(s@.subrange(0, 0) =~= seq![]);
            assert(s@.skip(0) =~= s@);
            assert(names.deep_view() =~= seq![]);
        }
        loop
            invariant_except_break
                names_from(seq![], seq![], s@, true, absolute) == names_from(
                    names.deep_view(),
                    s@.subrange(start as int, i as int),
                    s@.skip(i as int),
                    first,
                    absolute,
                ),
            invariant
                v@ == s@,
                n == s@.len(),
                "."@ == seq!['.'],
                start <= i <= n,
            ensures
                names.deep_view() == names_from(seq![], seq![], s@, true, absolute),
            decreases n - i,
        {
            if i == n || v[i] == '/' {
                let piece = s.substring_char(start, i);
                let ghost before = names.deep_view();
                if i > start && (!text::str_eq(piece, ".") || (first && !absolute)) {
                    names.push(piece.to_owned());
                    assert(names.deep_view() =~= before.push(piece@));
                }
                if i == n {
                    break;
                }
                assert(s@.skip(i as int).drop_first() =~= s@.skip(i + 1));
                assert(s@.subrange(i + 1, i + 1) =~= seq![]);
                first = false;
                i = i + 1;
                start = i;
            } else {
                assert(s@.skip(i as int).drop_first() =~= s@.skip(i + 1));
                assert(s@.subrange(start as int, i as int).push(s@[i as int]) =~= s@.subrange(
                    start as int,
                    i + 1,
                ));
                i = i + 1;
            }
        }
        DirPath { absolute, names }
    }

    /// The first `n` names of the path.
    pub fn ancestor(&self, n: usize) -> (p: Self)
        requires
            n <= self.names@.len(),
        ensures
            p.deep_view() == (DirView {
                absolute: self.absolute,
                names: self.deep_view().names.take(n as int),
            }),
    {
        let mut names: Vec<String> = Vec::new();
        let mut i: usize = 0;
        while i < n
            invariant
                i <= n <= self.names@.len(),
                names.deep_view() == self.names.deep_view().take(i as int),
            decreases n - i,
        {
            let ghost before = names.deep_view();
            let name = self.names[i].clone();
            names.push(name);
            assert(names.deep_view() =~= before.push(name@));
            assert(names.deep_view() =~= self.names.deep_view().take(i + 1));
            i = i + 1;
        }
        assert(names.deep_view() =~= self.names.deep_view().take(n as int));
        DirPath { absolute: self.absolute, names }
    }

    /// Whether the path lies at or below `root`.
    pub fn starts_with(&self, root: &DirPath) -> (r: bool)
        ensures
            r == lies_under(self.deep_view(), root.deep_view()),
    {
        if self.absolute != root.absolute || self.names.len() < root.names.len() {
            return false;
        }
        let mut i: usize = 0;
        while i < root.names.len()
            invariant
                root.names.len() <= self.names.len(),
                i <= root.names.len(),
                forall|j: int|
                    0 <= j < i ==> root.names.deep_view()[j] == self.names.deep_view()[j],
            decreases root.names.len() - i,
        {
            if !text::str_eq(root.names[i].as_str(), self.names[i].as_str()) {
                assert(root.names.deep_view()[i as int] != self.names.deep_view()[i as int]);
                return false;
            }
            i = i + 1;
        }
        true
    }

    /// The text of a path with the given names.
    pub open spec fn text_of(absolute: bool, names: Seq<Seq<char>>) -> Seq<char>
        decreases names.len(),
    {
        if names.len() == 0 {
            if absolute {
                seq!['/']
            } else {
                seq![]
            }
        } else {
            joined(Self::text_of(absolute, names.drop_last()), names.last())
        }
    }

    /// Writes the path as text.
    pub fn to_text(&self) -> (s: String)
        ensures
            s@ == Self::text_of(self.absolute, self.names.deep_view()),
    {
        proof {
            reveal_strlit("/");
            assert("/"@ =~= seq!['/']);
        }
        let mut out = if self.absolute {
            "/".to_owned()
        } else {
            String::new()
        };
        let mut i: usize = 0;
        let ghost names = self.names.deep_view();
        assert(names.take(0) =~= seq![]);
        while i < self.names.len()
            invariant
                i <= self.names.len(),
                names == self.names.deep_view(),
                out@ == Self::text_of(self.absolute, names.take(i as int)),
            decreases self.names.len() - i,
        {
            out = join(out.as_str(), self.names[i].as_str());
            proof {
                assert(names.take(i + 1).drop_last() =~= names.take(i as int));
                assert(names.take(i + 1).last() == self.names[i as int]@);
            }
            i = i + 1;
        }
        assert(names.take(names.len() as int) =~= names);
        out
    }
}

/// A relative name is put behind a directory with one separator between them; an absolute one
/// stands for itself.
pub proof fn one_separator_stands_between(base: Seq<char>, name: Seq<char>)
    ensures
        base.len() > 0 && base.last() != '/' && (name.len() == 0 || name[0] != '/') ==> joined(
            base,
            name,
        ) == base + seq!['/'] + name,
        base.len() > 0 && base.last() == '/' && (name.len() == 0 || name[0] != '/') ==> joined(
            base,
            name,
        ) == base + name,
        base.len() == 0 ==> joined(base, name) == name,
        name.len() > 0 && name[0] == '/' ==> joined(base, name) == name,
{
}

/// A blob lies two directories down, under the first two and the next two digits of its digest,
/// and bears its digest as its name.
pub proof fn blob_lies_under_its_digits(blobs: Seq<char>, digest: Seq<char>)
    requires
        blobs.len() > 0,
        blobs.last() != '/',
        digest.len() >= 4,
        digest[0] != '/',
        digest[1] != '/',
        digest[2] != '/',
        digest[3] != '/',
    ensures
        blob_place(blobs, digest) == blobs + seq!['/', digest[0], digest[1], '/', digest[2], digest[3], '/']
            + digest,
{
    assert(blob_place(blobs, digest) =~= blobs + seq![
        '/',
        digest[0],
        digest[1],
        '/',
        digest[2],
        digest[3],
        '/',
    ] + digest);
}

/// Whether a text is a name that can stand anywhere in a path.
pub open spec fn is_plain_name(name: Seq<char>) -> bool {
    name.len() > 0 && name != seq!['.'] && forall|i: int|
        0 <= i < name.len() ==> #[trigger] name[i] != '/'
}

proof fn lemma_one_name(
    done: Seq<Seq<char>>,
    piece: Seq<char>,
    rest: Seq<char>,
    first: bool,
    absolute: bool,
)
    requires
        forall|i: int| 0 <= i < rest.len() ==> #[trigger] rest[i] != '/',
        is_plain_name(piece + rest),
    ensures
        names_from(done, piece, rest, first, absolute) == done.push(piece + rest),
    decreases rest.len(),
{
    if rest.len() == 0 {
        assert(piece + rest =~= piece);
    } else {
        let after = rest.drop_first();
        assert(forall|i: int| 0 <= i < after.len() ==> after[i] == rest[i + 1]);
        assert(piece.push(rest[0]) + after =~= piece + rest);
        lemma_one_name(done, piece.push(rest[0]), after, first, absolute);
    }
}

/// The text of a path, read again, is that path.
pub proof fn text_tells_its_path(absolute: bool, names: Seq<Seq<char>>)
    requires
        forall|i: int| 0 <= i < names.len() ==> is_plain_name(#[trigger] names[i]),
    ensures
        dir_of_text(DirPath::text_of(absolute, names)) == (DirView { absolute, names }),
        names.len() > 0 ==> DirPath::text_of(absolute, names).len() > 0 && DirPath::text_of(
            absolute,
            names,
        ).last() != '/',
    decreases names.len(),
{
    let s = DirPath::text_of(absolute, names);
    if names.len() == 0 {
        if absolute {
            assert(s =~= seq!['/']);
            assert(s.drop_first() =~= seq![]);
            reveal_with_fuel(names_from, 2);
        }
        assert(dir_of_text(s).names =~= names);
    } else {
        let init = names.drop_last();
        let name = names.last();
        assert(names[names.len() - 1] == name);
        assert forall|i: int| 0 <= i < init.len() implies is_plain_name(#[trigger] init[i]) by {
            assert(init[i] == names[i]);
        }
        text_tells_its_path(absolute, init);
        let base = DirPath::text_of(absolute, init);
        assert(name[0] != '/');
        assert(s == joined(base, name));
        assert(s.last() == name.last());
        if base.len() == 0 {
            assert(Seq::<char>::empty() + name =~= name);
            lemma_one_name(seq![], seq![], name, true, absolute);
        } else {
            let outer = if base.last() == '/' {
                base.drop_last()
            } else {
                base
            };
            assert(s =~= outer + seq!['/'] + name);
            lemma_names_split(seq![], seq![], outer, name, true, absolute);
            let before = names_from(seq![], seq![], outer, true, absolute);
            assert(before =~= init) by {
                if base.last() == '/' {
                    assert(init.len() == 0);
                    assert(base =~= seq!['/']);
                    assert(outer =~= seq![]);
                }
            }
            assert(Seq::<char>::empty() + name =~= name);
            lemma_one_name(before, seq![], name, false, absolute);
            assert(s[0] == base[0]);
        }
        assert(init.push(name) =~= names);
    }
}

/// A path lies under another exactly if it goes on where the other ends, both from the root of the
/// file system or both from where one is.
pub proof fn path_goes_on_from_its_root(p: DirView, root: DirView)
    ensures
        lies_under(p, root) <==> p.absolute == root.absolute && exists|rest: Seq<Seq<char>>|
            p.names == root.names + rest,
        lies_under(root, root),
{
    if lies_under(p, root) {
        let rest = p.names.skip(root.names.len() as int);
        assert(p.names =~= root.names + rest);
    }
    if exists|rest: Seq<Seq<char>>| p.names == root.names + rest {
        let rest = choose|rest: Seq<Seq<char>>| p.names == root.names + rest;
        assert((root.names + rest).take(root.names.len() as int) =~= root.names);
        assert(root.names =~= p.names.subrange(0, root.names.len() as int));
    }
    assert(root.names =~= root.names.subrange(0, root.names.len() as int));
}

} // verus!

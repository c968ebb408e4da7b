//! The batch: which entries of a directory listing are scene files, and
//! where the image of each is written.

use vstd::prelude::*;
use vstd::string::*;

verus! {

/// The ending of a scene file's name.
pub open spec fn scene_suffix() -> Seq<char> {
    seq!['.', 'g', 'l', 't', 'f']
}

/// The ending of an image file's name.
pub open spec fn image_suffix() -> Seq<char> {
    seq!['.', 'p', 'n', 'g']
}

/// Whether a file of this name is taken for a scene file.
pub open spec fn names_scene(name: Seq<char>) -> bool {
    scene_suffix().is_suffix_of(name)
}

/// Whether the extension of `name` starts behind position `i`: there stands
/// its last dot, which is not its first character.
pub open spec fn is_extension_dot(name: Seq<char>, i: int) -> bool {
    &&& 0 < i < name.len()
    &&& name[i] == '.'
    &&& forall|j: int| i < j < name.len() ==> name[j] != '.'
}

/// A file name without its extension: all of it where it has none.
pub open spec fn stem(name: Seq<char>) -> Seq<char> {
    if exists|i: int| is_extension_dot(name, i) {
        name.take(choose|i: int| is_extension_dot(name, i))
    } else {
        name
    }
}

/// The name of the image of a scene file: the file's name with its
/// extension replaced.
pub open spec fn image_name_of(name: Seq<char>) -> Seq<char> {
    stem(name) + image_suffix()
}

/// The place of the image of a scene file: directly in the results
/// directory, whatever directory the scene file came from.
pub open spec fn output_path_of(results_dir: Seq<char>, name: Seq<char>) -> Seq<char> {
    results_dir + seq!['/'] + image_name_of(name)
}

/// A name has one stem: it ends before the dot of the extension, wherever
/// that dot was found.
pub proof fn lemma_stem(name: Seq<char>, i: int)
    requires
        is_extension_dot(name, i),
    ensures
        stem(name) == name.take(i),
{
    let k = choose|k: int| is_extension_dot(name, k);
    if k < i {
        assert(name[i] != '.');
    }
}

/// The image of a scene file has the file's name, with `.png` in the place
/// of `.gltf`. The file that is named `.gltf` and no more has no extension to
/// replace: its image is named `.gltf.png`.
pub proof fn lemma_image_of_scene_file(name: Seq<char>)
    requires
        names_scene(name),
    ensures
        name.len() > 5 ==> image_name_of(name) == name.take(name.len() - 5) + image_suffix(),
        name.len() == 5 ==> image_name_of(name) == name + image_suffix(),
{
    let dot = name.len() - 5;
    let tail = name.subrange(dot, name.len() as int);
    assert(tail == scene_suffix());
    assert forall|j: int| 0 <= j < 5 implies name[dot + j] == scene_suffix()[j] by {
        assert(tail[j] == name[dot + j]);
    }
    assert(name[dot] == '.');
    assert forall|j: int| dot < j < name.len() implies name[j] != '.' by {
        assert(name[dot + (j - dot)] == scene_suffix()[j - dot]);
    }
    if name.len() > 5 {
        lemma_stem(name, dot);
    } else {
        assert forall|i: int| !is_extension_dot(name, i) by {
            if is_extension_dot(name, i) {
                assert(name[dot + i] == scene_suffix()[i]);
            }
        }
    }
}

/// Whether a file of this name is taken for a scene file: its name ends in
/// `.gltf`.
pub fn is_scene_file(name: &str) -> (b: bool)
    ensures
        b == names_scene(name@),
{
    let n = name.unicode_len();
    if n < 5 {
        return false;
    }
    let start = n - 5;
    let b = name.get_char(start) == '.' && name.get_char(start + 1) == 'g' && name.get_char(
        start + 2,
    ) == 'l' && name.get_char(start + 3) == 't' && name.get_char(start + 4) == 'f';
    proof {
        let tail = name@.subrange(name@.len() - 5, name@.len() as int);
        if b {
            assert(scene_suffix() =~= tail);
        } else {
            assert(tail[0] == name@[start as int]);
            assert(tail[1] == name@[start + 1]);
            assert(tail[2] == name@[start + 2]);
            assert(tail[3] == name@[start + 3]);
            assert(tail[4] == name@[start + 4]);
        }
    }
    b
}

/// The position of the dot before the extension of `name`, where it has
/// one.
fn extension_dot(name: &str) -> (dot: Option<usize>)
    ensures
        match dot {
            Some(i) => is_extension_dot(name@, i as int),
            None => forall|i: int| !is_extension_dot(name@, i),
        },
{
    let n = name.unicode_len();
    let mut i = n;
    while i > 1
        invariant
            n == name@.len(),
            i <= n,
            forall|j: int| i <= j < n ==> name@[j] != '.',
        decreases i,
    {
        i -= 1;
        if name.get_char(i) == '.' {
            return Some(i);
        }
    }
    None
}

/// The name of the image of a scene file: the file's name with its
/// extension replaced by `png`.
pub fn image_name(name: &str) -> (image: String)
    ensures
        image@ == image_name_of(name@),
{
    let mut image = match extension_dot(name) {
        Some(i) => {
            proof {
                lemma_stem(name@, i as int);
            }
            String::from_str(name.substring_char(0, i))
        },
        None => String::from_str(name),
    };
    proof {
        reveal_strlit(".png");
        assert(".png"@ =~= image_suffix());
    }
    image.append(".png");
    image
}

/// The place of the image of a scene file, under the results directory.
pub fn output_path(results_dir: &str, name: &str) -> (path: String)
    ensures
        path@ == output_path_of(results_dir@, name@),
{
    let mut path = String::from_str(results_dir);
    proof {
        reveal_strlit("/");
        assert("/"@ =~= seq!['/']);
    }
    path.append("/");
    let image = image_name(name);
    path.append(image.as_str());
    assert(path@ =~= output_path_of(results_dir@, name@));
    path
}

/// What an entry of a directory is.
#[derive(Clone, Copy, Debug, PartialEq, Eq, Structural)]
pub enum EntryKind {
    File,
    Directory,
    Other,
}

/// One entry of a directory listing.
#[derive(Clone, Debug, PartialEq, Eq)]
pub struct Entry {
    pub name: String,
    pub kind: EntryKind,
}

/// The mathematical content of an [`Entry`].
pub struct EntryView {
    pub name: Seq<char>,
    pub kind: EntryKind,
}

impl View for Entry {
    type V = EntryView;

    open spec fn view(&self) -> EntryView {
        EntryView { name: self.name@, kind: self.kind }
    }
}

/// A directory listing, entry by entry.
pub open spec fn listing(entries: Seq<Entry>) -> Seq<EntryView> {
    Seq::new(entries.len(), |i: int| entries[i]@)
}

/// A list of names, name by name.
pub open spec fn texts(names: Seq<String>) -> Seq<Seq<char>> {
    Seq::new(names.len(), |i: int| names[i]@)
}

/// Holds of the entries of one kind and, where `scenes_only` is set, of
/// those among them alone that are named as a scene file is.
pub open spec fn is_wanted(kind: EntryKind, scenes_only: bool) -> spec_fn(EntryView) -> bool {
    |e: EntryView| e.kind == kind && (scenes_only ==> names_scene(e.name))
}

/// The entries that are rendered: the files whose names end as a scene
/// file's does.
pub open spec fn is_scene_entry() -> spec_fn(EntryView) -> bool {
    is_wanted(EntryKind::File, true)
}

/// The entries that are searched for scene files: the directories.
pub open spec fn is_directory_entry() -> spec_fn(EntryView) -> bool {
    is_wanted(EntryKind::Directory, false)
}

/// The name of an entry.
pub open spec fn entry_name() -> spec_fn(EntryView) -> Seq<char> {
    |e: EntryView| e.name
}

/// The names of the entries of a listing that `keep` holds of, in the order
/// of the listing.
pub open spec fn names_kept(entries: Seq<EntryView>, keep: spec_fn(EntryView) -> bool) -> Seq<
    Seq<char>,
> {
    entries.filter(keep).map_values(entry_name())
}

/// Taking one more entry of a listing adds its name where `keep` holds of
/// it, and nothing else.
proof fn lemma_names_kept_step(entries: Seq<EntryView>, keep: spec_fn(EntryView) -> bool, i: int)
    requires
        0 <= i < entries.len(),
    ensures
        names_kept(entries.take(i + 1), keep) == if keep(entries[i]) {
            names_kept(entries.take(i), keep).push(entries[i].name)
        } else {
            names_kept(entries.take(i), keep)
        },
{
    let before = entries.take(i);
    assert(entries.take(i + 1) =~= before.push(entries[i]));
    before.lemma_filter_push(entries[i], keep);
    if keep(entries[i]) {
        assert(before.filter(keep).push(entries[i]).map_values(entry_name()) =~= before.filter(
            keep,
        ).map_values(entry_name()).push(entries[i].name));
    }
}

/// A scan passes over what is no scene file: one more entry adds its name
/// to the scene files of a listing where it is a file named as a scene
/// file, and leaves them as they are where it is not.
pub proof fn lemma_scan_step(entries: Seq<EntryView>, entry: EntryView)
    ensures
        names_kept(entries.push(entry), is_scene_entry()) == if entry.kind == EntryKind::File
            && names_scene(entry.name) {
            names_kept(entries, is_scene_entry()).push(entry.name)
        } else {
            names_kept(entries, is_scene_entry())
        },
{
    let longer = entries.push(entry);
    assert(longer.take(entries.len() as int) =~= entries);
    assert(longer.take(longer.len() as int) =~= longer);
    lemma_names_kept_step(longer, is_scene_entry(), entries.len() as int);
}

/// An empty directory holds no scene file.
pub proof fn lemma_scan_empty()
    ensures
        names_kept(Seq::<EntryView>::empty(), is_scene_entry()) == Seq::<Seq<char>>::empty(),
{
    reveal(Seq::filter);
    assert(names_kept(Seq::<EntryView>::empty(), is_scene_entry()) =~= Seq::<Seq<char>>::empty());
}

/// The names of the entries of one kind, in the order of the listing: where
/// `scenes_only` is set, of those among them alone that are named as a scene
/// file is.
fn names_of(entries: &Vec<Entry>, kind: EntryKind, scenes_only: bool) -> (names: Vec<String>)
    ensures
        texts(names@) == names_kept(listing(entries@), is_wanted(kind, scenes_only)),
{
    let ghost all = listing(entries@);
    let ghost keep = is_wanted(kind, scenes_only);
    let mut names: Vec<String> = Vec::new();
    let mut i: usize = 0;
    proof {
        assert(all.take(0) =~= Seq::<EntryView>::empty());
        assert(all.take(0).filter(keep) =~= Seq::<EntryView>::empty()) by {
            reveal(Seq::filter);
        }
        assert(texts(names@) =~= names_kept(all.take(0), keep));
    }
    while i < entries.len()
        invariant
            all == listing(entries@),
            keep == is_wanted(kind, scenes_only),
            i <= entries@.len(),
            texts(names@) == names_kept(all.take(i as int), keep),
        decreases entries@.len() - i,
    {
        let entry = &entries[i];
        let ghost before = texts(names@);
        proof {
            lemma_names_kept_step(all, keep, i as int);
        }
        if entry.kind == kind && (!scenes_only || is_scene_file(entry.name.as_str())) {
            names.push(entry.name.clone());
            assert(texts(names@) =~= before.push(entry.name@));
        }
        i += 1;
    }
    assert(all.take(i as int) =~= all);
    names
}

/// The names of the scene files of a directory listing, in the order of the
/// listing. Entries that are no files, and files of other names, are passed
/// over.
pub fn scene_files(entries: &Vec<Entry>) -> (names: Vec<String>)
    ensures
        texts(names@) == names_kept(listing(entries@), is_scene_entry()),
{
    names_of(entries, EntryKind::File, true)
}

/// The names of the directories of a directory listing, in the order of the
/// listing.
pub fn subdirectories(entries: &Vec<Entry>) -> (names: Vec<String>)
    ensures
        texts(names@) == names_kept(listing(entries@), is_directory_entry()),
{
    names_of(entries, EntryKind::Directory, false)
}

} // verus!

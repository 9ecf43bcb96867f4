//! The directory tree of an archive, and how it is resolved from the tables.

use crate::container::{
    spec_file_entry, spec_name_entry, ArchiveFile, EntryType, FileTableEntry, NameEntryView,
    NameTableEntry,
};
use crate::error::Error;
use vstd::prelude::*;

verus! {

/// The deepest nesting of directories that is resolved.
pub const MAX_DEPTH: usize = 128;

/// Index of the root directory's row in the file table.
pub const ROOT_INDEX: u32 = 1;

/// A file of the archive: its name entry and its row of the file table.
pub struct File {
    pub(crate) name_entry: NameTableEntry,
    pub(crate) file_entry: FileTableEntry,
}

/// A directory of the archive with all that it holds, in the order of its
/// name table. Only the root has no name entry.
pub struct Directory {
    pub(crate) files: Vec<File>,
    pub(crate) directories: Vec<Directory>,
    pub(crate) name_entry: Option<NameTableEntry>,
    pub(crate) file_entry: FileTableEntry,
}

/// A file as a mathematical value.
pub struct FileView {
    pub name_entry: NameEntryView,
    pub file_entry: FileTableEntry,
}

/// A directory as a mathematical value.
pub struct DirectoryView {
    pub files: Seq<FileView>,
    pub directories: Seq<DirectoryView>,
    pub name_entry: Option<NameEntryView>,
    pub file_entry: FileTableEntry,
}

/// The files and subdirectories found in a stretch of a name table.
pub struct ChildrenView {
    pub files: Seq<FileView>,
    pub directories: Seq<DirectoryView>,
}

impl View for File {
    type V = FileView;

    open(crate) spec fn view(&self) -> FileView {
        FileView { name_entry: self.name_entry@, file_entry: self.file_entry }
    }
}

impl View for Directory {
    type V = DirectoryView;

    open(crate) spec fn view(&self) -> DirectoryView
        decreases self,
    {
        DirectoryView {
            files: self.files@.map_values(|f: File| f@),
            directories: Seq::new(
                self.directories@.len(),
                |i: int|
                    if 0 <= i < self.directories@.len() {
                        self.directories@[i].view()
                    } else {
                        arbitrary()
                    },
            ),
            name_entry: match self.name_entry {
                Some(entry) => Some(entry@),
                None => None,
            },
            file_entry: self.file_entry,
        }
    }
}

impl File {
    /// The file's name.
    pub fn name(&self) -> (name: &str)
        ensures
            name@ == self@.name_entry.name,
    {
        self.name_entry.name.as_str()
    }

    /// The size that the file's row declares: that of its stored bytes,
    /// packed or not.
    pub fn size(&self) -> (size: u32)
        ensures
            size == self@.file_entry.size,
    {
        self.file_entry.size
    }
}

impl Directory {
    /// The files that the directory holds.
    pub open(crate) spec fn spec_files(&self) -> Seq<File> {
        self.files@
    }

    /// The directories that the directory holds.
    pub open(crate) spec fn spec_directories(&self) -> Seq<Directory> {
        self.directories@
    }

    /// The files of the directory, in the order of its name table.
    pub fn files(&self) -> (files: &Vec<File>)
        ensures
            files@ == self.spec_files(),
            file_views(files@) == self@.files,
    {
        proof {
            lemma_directory_view(*self);
        }
        &self.files
    }

    /// The directories of the directory, in the order of its name table.
    pub fn directories(&self) -> (directories: &Vec<Directory>)
        ensures
            directories@ == self.spec_directories(),
            directory_views(directories@) == self@.directories,
    {
        proof {
            lemma_directory_view(*self);
        }
        &self.directories
    }

    /// The directory's name; the root has none.
    pub fn name(&self) -> (name: Option<&str>)
        ensures
            match name {
                Some(text) => self@.name_entry matches Some(entry) && text@ == entry.name,
                None => self@.name_entry is None,
            },
    {
        proof {
            lemma_directory_view(*self);
        }
        match &self.name_entry {
            None => None,
            Some(ne) => Some(ne.name.as_str()),
        }
    }
}

/// The views of a sequence of directories, one for one.
pub open(crate) spec fn directory_views(dirs: Seq<Directory>) -> Seq<DirectoryView> {
    Seq::new(dirs.len(), |i: int| dirs[i]@)
}

/// The views of a sequence of files, one for one.
pub open(crate) spec fn file_views(files: Seq<File>) -> Seq<FileView> {
    files.map_values(|f: File| f@)
}

/// `rest` with `files` and `directories` put in front of what it found.
pub open spec fn spec_prepend(
    files: Seq<FileView>,
    directories: Seq<DirectoryView>,
    rest: Result<ChildrenView, Error>,
) -> Result<ChildrenView, Error> {
    match rest {
        Ok(found) => Ok(
            ChildrenView {
                files: files + found.files,
                directories: directories + found.directories,
            },
        ),
        Err(e) => Err(e),
    }
}

/// The directory at row `index`, reached through the directories of `path`
/// (root first), or the first failure met while resolving it. A directory
/// resolved this way carries no name entry; its parent supplies it.
#[verifier::opaque]
pub open spec fn spec_directory(data: Seq<u8>, table: int, index: u32, path: Seq<u32>) -> Result<
    DirectoryView,
    Error,
>
    decreases MAX_DEPTH - path.len(), 0int, 0int,
{
    if path.len() >= MAX_DEPTH {
        Err(Error::DepthExceeded)
    } else if path.contains(index) {
        Err(Error::DirectoryCycle)
    } else {
        match spec_file_entry(data, table, index) {
            Err(e) => Err(e),
            Ok(entry) => spec_unnamed(
                entry,
                spec_children(
                    data,
                    table,
                    path.push(index),
                    entry.offset as int,
                    entry.offset + entry.size,
                ),
            ),
        }
    }
}

/// What the name entries from `cur` up to `max` hold, for a directory whose
/// path, itself included, is `path`.
#[verifier::opaque]
pub open spec fn spec_children(
    data: Seq<u8>,
    table: int,
    path: Seq<u32>,
    cur: int,
    max: int,
) -> Result<ChildrenView, Error>
    decreases MAX_DEPTH - path.len(), 1int, max - cur,
{
    if cur >= max {
        Ok(ChildrenView { files: Seq::empty(), directories: Seq::empty() })
    } else {
        match spec_name_entry(data, cur) {
            Err(e) => Err(e),
            Ok(name) => {
                if cur + name.entry_size > max {
                    Err(Error::NameEntrySpanOverrun)
                } else {
                    spec_step(
                        name,
                        spec_file_entry(data, table, name.file_index),
                        spec_directory(data, table, name.file_index, path),
                        spec_children(data, table, path, cur + name.entry_size, max),
                    )
                }
            },
        }
    }
}

/// The unnamed directory at row `entry` that holds `children`.
pub open spec fn spec_unnamed(
    entry: FileTableEntry,
    children: Result<ChildrenView, Error>,
) -> Result<DirectoryView, Error> {
    match children {
        Err(e) => Err(e),
        Ok(found) => Ok(
            DirectoryView {
                files: found.files,
                directories: found.directories,
                name_entry: None,
                file_entry: entry,
            },
        ),
    }
}

/// `dir` under the name that its parent gives it.
pub open spec fn spec_named(dir: DirectoryView, name: NameEntryView) -> DirectoryView {
    DirectoryView {
        files: dir.files,
        directories: dir.directories,
        name_entry: Some(name),
        file_entry: dir.file_entry,
    }
}

/// What one name entry at `cur` and the entries after it hold, given the
/// entry `name`, the row `entry` that it refers to, and, for a directory, what
/// resolving that row gave.
pub open spec fn spec_step(
    name: NameEntryView,
    entry: Result<FileTableEntry, Error>,
    dir: Result<DirectoryView, Error>,
    rest: Result<ChildrenView, Error>,
) -> Result<ChildrenView, Error> {
    match entry {
        Err(e) => Err(e),
        Ok(row) => match name.entry_type {
            EntryType::File => spec_prepend(
                seq![FileView { name_entry: name, file_entry: row }],
                Seq::empty(),
                rest,
            ),
            EntryType::Directory => match dir {
                Err(e) => Err(e),
                Ok(found) => spec_prepend(Seq::empty(), seq![spec_named(found, name)], rest),
            },
        },
    }
}

/// Whether a returned directory is the one that `expected` describes.
pub open spec fn directory_is(
    got: Result<Directory, Error>,
    expected: Result<DirectoryView, Error>,
) -> bool {
    match got {
        Ok(dir) => expected == Ok::<DirectoryView, Error>(dir@),
        Err(e) => expected == Err::<DirectoryView, Error>(e),
    }
}

/// Whether `index` is one of `stack`.
pub fn on_path(stack: &Vec<u32>, index: u32) -> (found: bool)
    ensures
        found == stack@.contains(index),
{
    let mut i: usize = 0;
    while i < stack.len()
        invariant
            i <= stack@.len(),
            forall|j: int| 0 <= j < i ==> stack@[j] != index,
        decreases stack@.len() - i,
    {
        if stack[i] == index {
            return true;
        }
        i += 1;
    }
    false
}

impl ArchiveFile {
    /// Resolves the directory at row `index` with everything below it.
    /// `stack` holds the rows of the directories that lead to it, root
    /// first, and holds them again when the directory is returned. A failure
    /// leaves behind them the rows of the directories that were being
    /// resolved.
    pub fn read_directory_loop(&self, index: u32, stack: &mut Vec<u32>) -> (r: Result<
        Directory,
        Error,
    >)
        requires
            self.wf(),
        ensures
            directory_is(
                r,
                spec_directory(self.data@, self.filetbl_offset as int, index, old(stack)@),
            ),
            r is Ok ==> final(stack)@ == old(stack)@,
            old(stack)@.is_prefix_of(final(stack)@),
        decreases MAX_DEPTH - old(stack)@.len(),
    {
        let ghost data = self.data@;
        let ghost table = self.filetbl_offset as int;
        let ghost target = spec_directory(data, table, index, old(stack)@);
        proof {
            lemma_directory_unfold(data, table, index, old(stack)@);
        }
        if stack.len() >= MAX_DEPTH {
            return Err(Error::DepthExceeded);
        }
        if on_path(stack, index) {
            return Err(Error::DirectoryCycle);
        }
        stack.push(index);

        let dentry: FileTableEntry = self.read_file_entry(index)?;
        let max_offset: u64 = dentry.offset as u64 + dentry.size as u64;
        let mut cur_offset: u64 = dentry.offset as u64;
        let mut dirs: Vec<Directory> = Vec::new();
        let mut files: Vec<File> = Vec::new();

        let ghost path = stack@;
        let ghost whole = spec_children(data, table, path, dentry.offset as int, max_offset as int);
        proof {
            assert(spec_prepend(Seq::empty(), Seq::empty(), whole) == whole) by {
                lemma_prepend_nothing(whole);
            }
            assert(file_views(files@) =~= Seq::<FileView>::empty());
            assert(directory_views(dirs@) =~= Seq::<DirectoryView>::empty());
        }

        while cur_offset < max_offset
            invariant
                self.wf(),
                data == self.data@,
                table == self.filetbl_offset as int,
                path == stack@,
                path == old(stack)@.push(index),
                path.len() <= MAX_DEPTH,
                max_offset <= 2 * u32::MAX,
                cur_offset <= max_offset,
                target == spec_directory(data, table, index, old(stack)@),
                target == spec_unnamed(dentry, whole),
                whole == spec_prepend(
                    file_views(files@),
                    directory_views(dirs@),
                    spec_children(data, table, path, cur_offset as int, max_offset as int),
                ),
            decreases max_offset - cur_offset,
        {
            proof {
                lemma_children_unfold(data, table, path, cur_offset as int, max_offset as int);
            }
            let nentry: NameTableEntry = self.read_name_entry(cur_offset)?;
            let nentry_size: u64 = nentry.entry_size as u64;
            if cur_offset + nentry_size > max_offset {
                return Err(Error::NameEntrySpanOverrun);
            }
            let fentry: FileTableEntry = self.read_file_entry(nentry.file_index)?;
            let ghost rest = spec_children(
                data,
                table,
                path,
                cur_offset + nentry_size,
                max_offset as int,
            );
            let ghost files_before = files@;
            let ghost dirs_before = dirs@;
            match nentry.entry_type {
                EntryType::File => {
                    let file = File { name_entry: nentry, file_entry: fentry };
                    files.push(file);
                    proof {
                        lemma_file_views_push(files_before, file);
                        lemma_prepend_twice(
                            file_views(files_before),
                            directory_views(dirs_before),
                            seq![file@],
                            Seq::empty(),
                            rest,
                        );
                        assert(directory_views(dirs_before) + Seq::<DirectoryView>::empty()
                            =~= directory_views(dirs_before));
                    }
                },
                EntryType::Directory => {
                    let undir: Directory = match self.read_directory_loop(
                        nentry.file_index,
                        stack,
                    ) {
                        Ok(undir) => undir,
                        Err(e) => {
                            proof {
                                assert(old(stack)@ =~= stack@.subrange(
                                    0,
                                    old(stack)@.len() as int,
                                ));
                            }
                            return Err(e);
                        },
                    };
                    let dir = Directory {
                        files: undir.files,
                        directories: undir.directories,
                        file_entry: undir.file_entry,
                        name_entry: Some(nentry),
                    };
                    dirs.push(dir);
                    proof {
                        lemma_directory_view(undir);
                        lemma_directory_view(dir);
                        assert(dir@ == spec_named(undir@, nentry@));
                        lemma_directory_views_push(dirs_before, dir);
                        lemma_prepend_twice(
                            file_views(files_before),
                            directory_views(dirs_before),
                            Seq::empty(),
                            seq![dir@],
                            rest,
                        );
                        assert(file_views(files_before) + Seq::<FileView>::empty() =~= file_views(
                            files_before,
                        ));
                    }
                },
            };
            cur_offset += nentry_size;
        }

        stack.pop();

        let found = Directory { file_entry: dentry, name_entry: None, files, directories: dirs };
        proof {
            assert(stack@ =~= old(stack)@);
            lemma_children_unfold(data, table, path, cur_offset as int, max_offset as int);
            lemma_directory_view(found);
            assert(file_views(files@) + Seq::<FileView>::empty() =~= file_views(files@));
            assert(directory_views(dirs@) + Seq::<DirectoryView>::empty() =~= directory_views(
                dirs@,
            ));
        }
        Ok(found)
    }

    /// Resolves the directory at row `index` as the top of a tree.
    pub fn read_directory(&self, index: u32) -> (r: Result<Directory, Error>)
        requires
            self.wf(),
        ensures
            directory_is(
                r,
                spec_directory(self.data@, self.filetbl_offset as int, index, Seq::empty()),
            ),
    {
        let mut stack: Vec<u32> = Vec::new();
        self.read_directory_loop(index, &mut stack)
    }

    /// Resolves the whole tree, from the root directory down.
    pub fn read_rootdir(&self) -> (r: Result<Directory, Error>)
        requires
            self.wf(),
        ensures
            directory_is(
                r,
                spec_directory(self.data@, self.filetbl_offset as int, ROOT_INDEX, Seq::empty()),
            ),
    {
        self.read_directory(ROOT_INDEX)
    }
}

/// A directory's view, field by field.
pub(crate) proof fn lemma_directory_view(dir: Directory)
    ensures
        dir@.files == file_views(dir.files@),
        dir@.directories == directory_views(dir.directories@),
        dir@.name_entry == match dir.name_entry {
            Some(entry) => Some(entry@),
            None => None,
        },
        dir@.file_entry == dir.file_entry,
{
    reveal_with_fuel(<Directory as View>::view, 2);
    assert(dir@.directories =~= directory_views(dir.directories@));
}

/// The views of a list of files with one more at its end.
pub proof fn lemma_file_views_push(files: Seq<File>, file: File)
    ensures
        file_views(files.push(file)) == file_views(files) + seq![file@],
{
    assert(file_views(files.push(file)) =~= file_views(files) + seq![file@]);
}

/// The views of a list of directories with one more at its end.
pub proof fn lemma_directory_views_push(dirs: Seq<Directory>, dir: Directory)
    ensures
        directory_views(dirs.push(dir)) == directory_views(dirs) + seq![dir@],
{
    assert(directory_views(dirs.push(dir)) =~= directory_views(dirs) + seq![dir@]);
}

/// The definition of [`spec_directory`], one step of it.
pub proof fn lemma_directory_unfold(data: Seq<u8>, table: int, index: u32, path: Seq<u32>)
    ensures
        spec_directory(data, table, index, path) == (if path.len() >= MAX_DEPTH {
            Err(Error::DepthExceeded)
        } else if path.contains(index) {
            Err(Error::DirectoryCycle)
        } else {
            match spec_file_entry(data, table, index) {
                Err(e) => Err(e),
                Ok(entry) => spec_unnamed(
                    entry,
                    spec_children(
                        data,
                        table,
                        path.push(index),
                        entry.offset as int,
                        entry.offset + entry.size,
                    ),
                ),
            }
        }),
{
    reveal_with_fuel(spec_directory, 2);
    reveal_with_fuel(spec_children, 2);
}

/// The definition of [`spec_children`], one step of it.
pub proof fn lemma_children_unfold(data: Seq<u8>, table: int, path: Seq<u32>, cur: int, max: int)
    ensures
        spec_children(data, table, path, cur, max) == (if cur >= max {
            Ok(ChildrenView { files: Seq::empty(), directories: Seq::empty() })
        } else {
            match spec_name_entry(data, cur) {
                Err(e) => Err(e),
                Ok(name) => {
                    if cur + name.entry_size > max {
                        Err(Error::NameEntrySpanOverrun)
                    } else {
                        spec_step(
                            name,
                            spec_file_entry(data, table, name.file_index),
                            spec_directory(data, table, name.file_index, path),
                            spec_children(data, table, path, cur + name.entry_size, max),
                        )
                    }
                },
            }
        }),
{
    reveal_with_fuel(spec_directory, 2);
    reveal_with_fuel(spec_children, 2);
}

/// Putting nothing in front of `rest` leaves it as it is.
pub proof fn lemma_prepend_nothing(rest: Result<ChildrenView, Error>)
    ensures
        spec_prepend(Seq::empty(), Seq::empty(), rest) == rest,
{
    match rest {
        Ok(found) => {
            assert(Seq::<FileView>::empty() + found.files =~= found.files);
            assert(Seq::<DirectoryView>::empty() + found.directories =~= found.directories);
        },
        Err(_) => {},
    }
}

/// Putting two runs of children in front of `rest`, one after the other,
/// puts their concatenation in front of it.
pub proof fn lemma_prepend_twice(
    files_a: Seq<FileView>,
    dirs_a: Seq<DirectoryView>,
    files_b: Seq<FileView>,
    dirs_b: Seq<DirectoryView>,
    rest: Result<ChildrenView, Error>,
)
    ensures
        spec_prepend(files_a, dirs_a, spec_prepend(files_b, dirs_b, rest)) == spec_prepend(
            files_a + files_b,
            dirs_a + dirs_b,
            rest,
        ),
{
    match rest {
        Ok(found) => {
            assert(files_a + (files_b + found.files) =~= (files_a + files_b) + found.files);
            assert(dirs_a + (dirs_b + found.directories) =~= (dirs_a + dirs_b)
                + found.directories);
        },
        Err(_) => {},
    }
}

} // verus!

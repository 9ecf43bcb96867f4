//! What holds of every tree that the resolver accepts: each directory's name
//! entries fill its span exactly, every child refers to a row that the file
//! table has, and no directory lies below itself or too deep.

use crate::archive::spec_archive;
use crate::container::{
    spec_file_entry, spec_header, spec_name_entry, EntryType, NameEntryView, FILE_ENTRY_SIZE,
};
use crate::error::Error;
use crate::tree::{
    lemma_children_unfold, lemma_directory_unfold, spec_children, spec_directory, spec_named,
    ChildrenView, DirectoryView, FileView, MAX_DEPTH, ROOT_INDEX,
};
use vstd::prelude::*;

verus! {

/// The bytes that the name entries of `files` take up.
pub open spec fn spec_file_names_size(files: Seq<FileView>) -> int
    decreases files.len(),
{
    if files.len() == 0 {
        0
    } else {
        files[0].name_entry.entry_size + spec_file_names_size(files.drop_first())
    }
}

/// The bytes that the name entries of `directories` take up.
pub open spec fn spec_directory_names_size(directories: Seq<DirectoryView>) -> int
    decreases directories.len(),
{
    if directories.len() == 0 {
        0
    } else {
        (match directories[0].name_entry {
            Some(name) => name.entry_size as int,
            None => 0,
        }) + spec_directory_names_size(directories.drop_first())
    }
}

/// In `dir` and in every directory below it, the name entries take up
/// exactly the size that the directory's row declares.
pub open spec fn spec_tiled(dir: DirectoryView) -> bool
    decreases dir,
{
    &&& spec_file_names_size(dir.files) + spec_directory_names_size(dir.directories)
        == dir.file_entry.size
    &&& forall|i: int|
        0 <= i < dir.directories.len() ==> spec_tiled(#[trigger] dir.directories[i])
}

/// The number of whole rows between `table` and the end of `data`.
pub open spec fn spec_row_count(data: Seq<u8>, table: int) -> int {
    if table <= data.len() {
        (data.len() - table) / (FILE_ENTRY_SIZE as int)
    } else {
        0
    }
}

/// Whether the file table has a row `index`.
pub open spec fn spec_row_exists(data: Seq<u8>, table: int, index: u32) -> bool {
    1 <= index <= spec_row_count(data, table)
}

/// Every file and directory in `dir`, and in every directory below it,
/// refers to a row that the file table has.
pub open spec fn spec_indexed(dir: DirectoryView, data: Seq<u8>, table: int) -> bool
    decreases dir,
{
    &&& forall|i: int|
        0 <= i < dir.files.len() ==> spec_row_exists(
            data,
            table,
            (#[trigger] dir.files[i]).name_entry.file_index,
        )
    &&& forall|i: int|
        0 <= i < dir.directories.len() ==> {
            &&& (#[trigger] dir.directories[i]).name_entry matches Some(name)
            &&& spec_row_exists(data, table, name.file_index)
            &&& spec_indexed(dir.directories[i], data, table)
        }
}

/// `path` holds the rows of the directories from the root down to `dir`,
/// `dir` included. Neither it nor any path that continues it below `dir`
/// names a row twice or is longer than [`MAX_DEPTH`].
pub open spec fn spec_nested(dir: DirectoryView, path: Seq<u32>) -> bool
    decreases dir,
{
    &&& path.len() <= MAX_DEPTH
    &&& path.no_duplicates()
    &&& forall|i: int|
        0 <= i < dir.directories.len() ==> {
            &&& (#[trigger] dir.directories[i]).name_entry matches Some(name)
            &&& spec_nested(dir.directories[i], path.push(name.file_index))
        }
}

/// All three together, for the children found in a stretch of name table.
pub open spec fn spec_children_sound(
    found: ChildrenView,
    data: Seq<u8>,
    table: int,
    path: Seq<u32>,
    span: int,
) -> bool {
    &&& spec_file_names_size(found.files) + spec_directory_names_size(found.directories) == span
    &&& forall|i: int|
        0 <= i < found.files.len() ==> spec_row_exists(
            data,
            table,
            (#[trigger] found.files[i]).name_entry.file_index,
        )
    &&& forall|i: int|
        0 <= i < found.directories.len() ==> {
            &&& (#[trigger] found.directories[i]).name_entry matches Some(name)
            &&& spec_row_exists(data, table, name.file_index)
            &&& spec_tiled(found.directories[i])
            &&& spec_indexed(found.directories[i], data, table)
            &&& spec_nested(found.directories[i], path.push(name.file_index))
        }
}

/// A row that can be read is a row that the table has.
pub proof fn lemma_row_read_exists(data: Seq<u8>, table: int, index: u32)
    requires
        0 <= table,
    ensures
        spec_file_entry(data, table, index) is Ok <==> spec_row_exists(data, table, index),
{
}

/// A path that names no row twice still does so with one more row that is
/// not on it.
pub proof fn lemma_push_no_duplicates(path: Seq<u32>, index: u32)
    requires
        path.no_duplicates(),
        !path.contains(index),
    ensures
        path.push(index).no_duplicates(),
{
    let longer = path.push(index);
    assert forall|i: int, j: int|
        0 <= i < longer.len() && 0 <= j < longer.len() && i != j implies longer[i]
        != longer[j] by {
        if i < path.len() {
            assert(path.contains(path[i]));
        }
        if j < path.len() {
            assert(path.contains(path[j]));
        }
    }
}

/// The three properties do not depend on the name that a directory goes by.
pub proof fn lemma_named_keeps_shape(
    dir: DirectoryView,
    name: NameEntryView,
    data: Seq<u8>,
    table: int,
    path: Seq<u32>,
)
    ensures
        spec_tiled(spec_named(dir, name)) == spec_tiled(dir),
        spec_indexed(spec_named(dir, name), data, table) == spec_indexed(dir, data, table),
        spec_nested(spec_named(dir, name), path) == spec_nested(dir, path),
{
}

/// A directory that resolves has all three properties.
pub proof fn lemma_directory_sound(data: Seq<u8>, table: int, index: u32, path: Seq<u32>)
    requires
        0 <= table,
        path.no_duplicates(),
    ensures
        spec_directory(data, table, index, path) matches Ok(dir) ==> {
            &&& spec_row_exists(data, table, index)
            &&& spec_tiled(dir)
            &&& spec_indexed(dir, data, table)
            &&& spec_nested(dir, path.push(index))
        },
    decreases MAX_DEPTH - path.len(), 0int, 0int,
{
    lemma_directory_unfold(data, table, index, path);
    lemma_row_read_exists(data, table, index);
    if let Ok(dir) = spec_directory(data, table, index, path) {
        let entry = spec_file_entry(data, table, index).unwrap();
        let longer = path.push(index);
        lemma_push_no_duplicates(path, index);
        lemma_children_sound(
            data,
            table,
            longer,
            entry.offset as int,
            entry.offset + entry.size,
        );
    }
}

/// The children found in a stretch of name table have all three properties.
pub proof fn lemma_children_sound(data: Seq<u8>, table: int, path: Seq<u32>, cur: int, max: int)
    requires
        0 <= table,
        cur <= max,
        path.no_duplicates(),
        path.len() <= MAX_DEPTH,
    ensures
        spec_children(data, table, path, cur, max) matches Ok(found) ==> spec_children_sound(
            found,
            data,
            table,
            path,
            max - cur,
        ),
    decreases MAX_DEPTH - path.len(), 1int, max - cur,
{
    lemma_children_unfold(data, table, path, cur, max);
    if let Ok(found) = spec_children(data, table, path, cur, max) {
        if cur < max {
            let name = spec_name_entry(data, cur).unwrap();
            let next = cur + name.entry_size;
            let rest = spec_children(data, table, path, next, max).unwrap();
            lemma_children_sound(data, table, path, next, max);
            match name.entry_type {
                EntryType::File => {
                    assert(found.files.drop_first() =~= rest.files);
                    assert(found.directories =~= rest.directories);
                    assert forall|i: int| 0 <= i < found.files.len() implies spec_row_exists(
                        data,
                        table,
                        (#[trigger] found.files[i]).name_entry.file_index,
                    ) by {
                        if i > 0 {
                            assert(found.files[i] == rest.files[i - 1]);
                        }
                    }
                },
                EntryType::Directory => {
                    let inner = spec_directory(data, table, name.file_index, path).unwrap();
                    lemma_directory_sound(data, table, name.file_index, path);
                    lemma_named_keeps_shape(
                        inner,
                        name,
                        data,
                        table,
                        path.push(name.file_index),
                    );
                    assert(found.files =~= rest.files);
                    assert(found.directories.drop_first() =~= rest.directories);
                    assert forall|i: int| 0 <= i < found.directories.len() implies {
                        &&& (#[trigger] found.directories[i]).name_entry matches Some(name)
                        &&& spec_row_exists(data, table, name.file_index)
                        &&& spec_tiled(found.directories[i])
                        &&& spec_indexed(found.directories[i], data, table)
                        &&& spec_nested(found.directories[i], path.push(name.file_index))
                    } by {
                        if i > 0 {
                            assert(found.directories[i] == rest.directories[i - 1]);
                        }
                    }
                },
            }
        }
    }
}

/// In an archive that opens, the name entries of every directory take up
/// exactly the size that the directory's row declares.
pub proof fn lemma_opened_tree_is_tiled(data: Seq<u8>)
    ensures
        spec_archive(data) matches Ok(root) ==> spec_tiled(root),
{
    if let Ok(table) = spec_header(data) {
        lemma_directory_sound(data, table as int, ROOT_INDEX, Seq::empty());
    }
}

/// In an archive that opens, every file and every directory refers to a
/// row that the file table has: its index is at least 1 and at most the
/// number of rows.
pub proof fn lemma_opened_tree_is_indexed(data: Seq<u8>)
    ensures
        spec_archive(data) matches Ok(root) ==> spec_indexed(
            root,
            data,
            spec_header(data).unwrap() as int,
        ),
{
    if let Ok(table) = spec_header(data) {
        lemma_directory_sound(data, table as int, ROOT_INDEX, Seq::empty());
    }
}

/// In an archive that opens, no path from the root down names a row twice,
/// and none holds more than [`MAX_DEPTH`] directories.
pub proof fn lemma_opened_tree_is_nested(data: Seq<u8>)
    ensures
        spec_archive(data) matches Ok(root) ==> spec_nested(root, seq![ROOT_INDEX]),
{
    if let Ok(table) = spec_header(data) {
        lemma_directory_sound(data, table as int, ROOT_INDEX, Seq::empty());
        assert(Seq::<u32>::empty().push(ROOT_INDEX) =~= seq![ROOT_INDEX]);
    }
}

/// A directory that would lie deeper than [`MAX_DEPTH`] is refused.
pub proof fn lemma_too_deep_is_refused(data: Seq<u8>, table: int, index: u32, path: Seq<u32>)
    requires
        path.len() >= MAX_DEPTH,
    ensures
        spec_directory(data, table, index, path) == Err::<DirectoryView, Error>(
            Error::DepthExceeded,
        ),
{
    lemma_directory_unfold(data, table, index, path);
}

/// A directory that would lie below itself is refused.
pub proof fn lemma_cycle_is_refused(data: Seq<u8>, table: int, index: u32, path: Seq<u32>)
    requires
        path.len() < MAX_DEPTH,
        path.contains(index),
    ensures
        spec_directory(data, table, index, path) == Err::<DirectoryView, Error>(
            Error::DirectoryCycle,
        ),
{
    lemma_directory_unfold(data, table, index, path);
}

/// A directory in which a subdirectory is refused is refused for the same
/// reason, if nothing before that subdirectory was refused.
pub proof fn lemma_refusal_below_refuses_above(
    data: Seq<u8>,
    table: int,
    path: Seq<u32>,
    cur: int,
    max: int,
    at: int,
)
    requires
        cur <= at < max,
        spec_children(data, table, path, cur, at) is Ok,
        spec_name_entry(data, at) matches Ok(name) && at + name.entry_size <= max
            && name.entry_type == EntryType::Directory && spec_file_entry(
            data,
            table,
            name.file_index,
        ) is Ok && spec_directory(data, table, name.file_index, path) is Err,
    ensures
        spec_children(data, table, path, cur, max) == Err::<ChildrenView, Error>(
            spec_directory(
                data,
                table,
                spec_name_entry(data, at).unwrap().file_index,
                path,
            )->Err_0,
        ),
    decreases at - cur,
{
    lemma_children_unfold(data, table, path, cur, max);
    lemma_children_unfold(data, table, path, cur, at);
    if cur < at {
        let name = spec_name_entry(data, cur).unwrap();
        lemma_children_unfold(data, table, path, cur + name.entry_size, at);
        if cur + name.entry_size > at {
            assert(false);
        }
        lemma_refusal_below_refuses_above(data, table, path, cur + name.entry_size, max, at);
    }
}

} // verus!

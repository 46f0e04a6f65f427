//! What holds of the migration files, whichever they are.

use vstd::prelude::*;
use vstd::utf8::{decode_utf8_encode_utf8, encode_utf8, valid_utf8};

use crate::error::ErrorView;
use crate::files::{
    contents, file_text, migration_names, migration_names_are_exact, migration_of, FileView,
};
use crate::plan::{down_path, up_path};
use crate::text::before;

verus! {

/// The folder of the forward changes.
pub open spec fn up_folder() -> Seq<char> {
    seq!['u', 'p', '/']
}

/// The folder of the reverses.
pub open spec fn down_folder() -> Seq<char> {
    seq!['d', 'o', 'w', 'n', '/']
}

/// The end of the path of a migration file.
pub open spec fn file_end() -> Seq<char> {
    seq!['.', 's', 'u', 'r', 'q', 'l']
}

proof fn literals()
    ensures
        "up/"@ == up_folder(),
        "down/"@ == down_folder(),
        ".surql"@ == file_end(),
{
    reveal_strlit("up/");
    reveal_strlit("down/");
    reveal_strlit(".surql");
    assert("up/"@ =~= up_folder());
    assert("down/"@ =~= down_folder());
    assert(".surql"@ =~= file_end());
}

/// The two files of a migration are `up/<name>.surql` and `down/<name>.surql`; both belong
/// to it.
pub proof fn both_files_belong_to_their_migration(name: Seq<char>)
    ensures
        up_path(name) == up_folder() + name + file_end(),
        down_path(name) == down_folder() + name + file_end(),
        migration_of(up_path(name)) == Some(name),
        migration_of(down_path(name)) == Some(name),
{
    literals();
    let u = up_path(name);
    let d = down_path(name);
    let rest = name + file_end();
    assert(up_folder().is_prefix_of(u)) by {
        assert(up_folder() =~= u.subrange(0, 3));
    }
    assert(u.skip(3) =~= rest);
    assert(down_folder().is_prefix_of(d)) by {
        assert(down_folder() =~= d.subrange(0, 5));
    }
    assert(!up_folder().is_prefix_of(d)) by {
        assert(d[0] == 'd');
        if up_folder().is_prefix_of(d) {
            assert(d.subrange(0, 3)[0] == up_folder()[0]);
        }
    }
    assert(d.skip(5) =~= rest);
    assert(file_end().is_suffix_of(rest)) by {
        assert(file_end() =~= rest.subrange(name.len() as int, rest.len() as int));
    }
    assert(rest.take(rest.len() - 6) =~= name);
}

/// No other file belongs to a migration.
pub proof fn only_these_files_belong_to_a_migration(path: Seq<char>, name: Seq<char>)
    requires
        migration_of(path) == Some(name),
    ensures
        path == up_folder() + name + file_end() || path == down_folder() + name + file_end(),
{
    literals();
    let n = path.len() as int;
    if up_folder().is_prefix_of(path) {
        let rest = path.skip(3);
        assert(path =~= path.subrange(0, 3) + rest);
        assert(file_end().is_suffix_of(rest));
        assert(rest =~= name + rest.skip(rest.len() - 6));
        assert(file_end() =~= rest.subrange(rest.len() - 6, rest.len() as int));
        assert(path =~= up_folder() + name + file_end());
    } else {
        let rest = path.skip(5);
        assert(path =~= path.subrange(0, 5) + rest);
        assert(file_end().is_suffix_of(rest));
        assert(rest =~= name + rest.skip(rest.len() - 6));
        assert(file_end() =~= rest.subrange(rest.len() - 6, rest.len() as int));
        assert(path =~= down_folder() + name + file_end());
    }
}

/// Whether a file is one of the two of a migration.
pub open spec fn is_file_of(file: FileView, name: Seq<char>) -> bool {
    ||| file.path == up_folder() + name + file_end()
    ||| file.path == down_folder() + name + file_end()
}

/// The migrations are listed in order, each once: those that have at least one of their two
/// files, and no others.
pub proof fn migrations_are_listed_in_order(files: Seq<FileView>)
    ensures
        forall|i: int, j: int|
            0 <= i < j < migration_names(files).len() ==> before(
                #[trigger] migration_names(files)[i],
                #[trigger] migration_names(files)[j],
            ),
        forall|name: Seq<char>| #[trigger]
            migration_names(files).contains(name) <==> exists|k: int|
                0 <= k < files.len() && is_file_of(#[trigger] files[k], name),
{
    migration_names_are_exact(files);
    assert forall|name: Seq<char>| #[trigger]
        migration_names(files).contains(name) <==> exists|k: int|
            0 <= k < files.len() && is_file_of(#[trigger] files[k], name) by {
        both_files_belong_to_their_migration(name);
        if migration_names(files).contains(name) {
            let k = choose|k: int|
                0 <= k < files.len() && migration_of(#[trigger] files[k].path) == Some(name);
            only_these_files_belong_to_a_migration(files[k].path, name);
            assert(is_file_of(files[k], name));
        }
        if exists|k: int| 0 <= k < files.len() && is_file_of(#[trigger] files[k], name) {
            let k = choose|k: int| 0 <= k < files.len() && is_file_of(#[trigger] files[k], name);
            assert(migration_of(files[k].path) == Some(name));
        }
    }
}

/// Whether file `k` is the first at the path.
pub open spec fn is_first_at(files: Seq<FileView>, k: int, path: Seq<char>) -> bool {
    &&& 0 <= k < files.len()
    &&& files[k].path == path
    &&& forall|m: int| 0 <= m < k ==> (#[trigger] files[m]).path != path
}

/// What the file at a path holds is what the first file with this path holds; nothing if
/// there is none.
pub proof fn the_contents_are_those_of_the_file(files: Seq<FileView>, path: Seq<char>)
    ensures
        contents(files, path) matches Some(data) ==> exists|k: int| #[trigger]
            is_first_at(files, k, path) && files[k].data == data,
        contents(files, path) is None <==> forall|k: int|
            0 <= k < files.len() ==> (#[trigger] files[k]).path != path,
    decreases files.len(),
{
    if files.len() > 0 {
        let tail = files.drop_first();
        if files.first().path == path {
            assert(is_first_at(files, 0, path));
            assert(files[0].path == path);
        } else {
            the_contents_are_those_of_the_file(tail, path);
            if let Some(data) = contents(tail, path) {
                let k = choose|k: int| #[trigger]
                    is_first_at(tail, k, path) && tail[k].data == data;
                assert forall|m: int| 0 <= m < k + 1 implies (#[trigger] files[m]).path
                    != path by {
                    if m > 0 {
                        assert(tail[m - 1] == files[m]);
                    }
                }
                assert(is_first_at(files, k + 1, path));
                assert(files[k + 1].path == path);
            } else {
                assert forall|k: int| 0 <= k < files.len() implies (#[trigger] files[k]).path
                    != path by {
                    if k > 0 {
                        assert(tail[k - 1] == files[k]);
                    }
                }
            }
        }
    }
}

/// The text of a file is the text whose UTF-8 bytes the file holds. There is none if there
/// is no such file, or if its bytes are no UTF-8; the error says which.
pub proof fn the_text_is_encoded_in_the_file(files: Seq<FileView>, path: Seq<char>)
    ensures
        match file_text(files, path) {
            Ok(text) => exists|k: int| #[trigger]
                is_first_at(files, k, path) && files[k].data == encode_utf8(text),
            Err(ErrorView::NoDownFile(p)) => p == path && forall|k: int|
                0 <= k < files.len() ==> (#[trigger] files[k]).path != path,
            Err(ErrorView::Encoding(_)) => exists|k: int| #[trigger]
                is_first_at(files, k, path) && !valid_utf8(files[k].data),
            Err(_) => false,
        },
{
    the_contents_are_those_of_the_file(files, path);
    if let Some(data) = contents(files, path) {
        if valid_utf8(data) {
            decode_utf8_encode_utf8(data);
        }
    }
}

} // verus!

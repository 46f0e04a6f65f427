//! The migration files: which migrations there are, and what their files hold.
//!
//! A migration `<name>` has its forward change in `up/<name>.surql` and its reverse
//! in `down/<name>.surql`. Names are ordered by their characters; a zero-padded
//! numeric prefix (`0001_`, `0002_`, ...) controls the order.

use vstd::prelude::*;
use vstd::utf8::{decode_utf8, encode_utf8, valid_utf8};

use crate::error::{ErrorView, MigrationError};
use crate::text::{
    before, before_is_total, before_is_transitive, comes_before, increasing, to_chars, to_text,
};

verus! {

broadcast use vstd::string::group_string_axioms;

/// One file, by its path below the migrations folder.
#[derive(Debug, PartialEq, Eq)]
pub struct File {
    pub path: String,
    pub data: Vec<u8>,
}

/// The contents of a `File`.
pub struct FileView {
    pub path: Seq<char>,
    pub data: Seq<u8>,
}

impl View for File {
    type V = FileView;

    open spec fn view(&self) -> FileView {
        FileView { path: self.path@, data: self.data@ }
    }
}

impl DeepView for File {
    type V = FileView;

    open spec fn deep_view(&self) -> FileView {
        self@
    }
}

/// All migration files.
#[derive(Debug, PartialEq, Eq)]
pub struct Files {
    pub entries: Vec<File>,
}

impl View for Files {
    type V = Seq<FileView>;

    open spec fn view(&self) -> Seq<FileView> {
        self.entries.deep_view()
    }
}

/// `s` without `prefix`, if it begins so.
pub open spec fn after_prefix(s: Seq<char>, prefix: Seq<char>) -> Option<Seq<char>> {
    if prefix.is_prefix_of(s) {
        Some(s.skip(prefix.len() as int))
    } else {
        None
    }
}

/// `s` without `suffix`, if it ends so.
pub open spec fn before_suffix(s: Seq<char>, suffix: Seq<char>) -> Option<Seq<char>> {
    if suffix.is_suffix_of(s) {
        Some(s.take(s.len() - suffix.len()))
    } else {
        None
    }
}

/// The migration that a file belongs to: `up/<name>.surql` and `down/<name>.surql`
/// belong to `<name>`, any other file to none.
pub open spec fn migration_of(path: Seq<char>) -> Option<Seq<char>> {
    match after_prefix(path, "up/"@) {
        Some(rest) => before_suffix(rest, ".surql"@),
        None => match after_prefix(path, "down/"@) {
            Some(rest) => before_suffix(rest, ".surql"@),
            None => None,
        },
    }
}

/// `name` put into its place among increasing names, unless it is there.
pub open spec fn with_name(names: Seq<Seq<char>>, name: Seq<char>) -> Seq<Seq<char>>
    decreases names.len(),
{
    if names.len() == 0 || before(name, names.first()) {
        seq![name] + names
    } else if name == names.first() {
        names
    } else {
        seq![names.first()] + with_name(names.drop_first(), name)
    }
}

/// The names of all migrations that have a file, each once, in order.
pub open spec fn migration_names(files: Seq<FileView>) -> Seq<Seq<char>>
    decreases files.len(),
{
    if files.len() == 0 {
        Seq::empty()
    } else {
        let names = migration_names(files.drop_last());
        match migration_of(files.last().path) {
            Some(name) => with_name(names, name),
            None => names,
        }
    }
}

/// What the file at `path` holds.
pub open spec fn contents(files: Seq<FileView>, path: Seq<char>) -> Option<Seq<u8>>
    decreases files.len(),
{
    if files.len() == 0 {
        None
    } else if files.first().path == path {
        Some(files.first().data)
    } else {
        contents(files.drop_first(), path)
    }
}

/// What is said of bytes that are no UTF-8 text.
pub uninterp spec fn utf8_fault(bytes: Seq<u8>) -> Seq<char>;

/// `std::str::from_utf8`: the text that the bytes encode if they are valid UTF-8;
/// otherwise an error, whose message is a function of the bytes.
#[verifier::external_body]
fn decode(bytes: &Vec<u8>) -> (r: Result<String, String>)
    ensures
        r is Ok <==> valid_utf8(bytes@),
        r matches Ok(s) ==> encode_utf8(s@) == bytes@,
        r matches Err(fault) ==> fault@ == utf8_fault(bytes@),
{
    match std::str::from_utf8(bytes) {
        Ok(s) => Ok(s.to_string()),
        Err(e) => Err(e.to_string()),
    }
}

/// The text of the file at `path`.
pub open spec fn file_text(files: Seq<FileView>, path: Seq<char>) -> Result<Seq<char>, ErrorView> {
    match contents(files, path) {
        None => Err(ErrorView::NoDownFile(path)),
        Some(bytes) => if valid_utf8(bytes) {
            Ok(decode_utf8(bytes))
        } else {
            Err(ErrorView::Encoding(utf8_fault(bytes)))
        },
    }
}

/// Whether `inner` stands in `s` at `at`.
fn stands_at(s: &Vec<char>, inner: &Vec<char>, at: usize) -> (r: bool)
    requires
        at + inner@.len() <= s@.len(),
    ensures
        r == (s@.subrange(at as int, at + inner@.len()) == inner@),
{
    let mut i: usize = 0;
    let len: usize = s.len();
    let ghost part = s@.subrange(at as int, at + inner@.len());
    while i < inner.len()
        invariant
            i <= inner@.len(),
            at + inner@.len() <= s@.len() == len,
            part == s@.subrange(at as int, at + inner@.len()),
            forall|j: int| 0 <= j < i ==> part[j] == inner@[j],
        decreases inner@.len() - i,
    {
        if s[at + i] != inner[i] {
            assert(part[i as int] != inner@[i as int]);
            return false;
        }
        i += 1;
    }
    assert(part =~= inner@);
    true
}

/// The part of `path` between `prefix` and `.surql`.
fn name_below(path: &Vec<char>, prefix: &str) -> (r: Option<String>)
    ensures
        match after_prefix(path@, prefix@) {
            Some(rest) => match before_suffix(rest, ".surql"@) {
                Some(name) => r is Some && r->0@ == name,
                None => r is None,
            },
            None => r is None,
        },
{
    let pre: Vec<char> = to_chars(prefix);
    let suf: Vec<char> = to_chars(".surql");
    let len: usize = path.len();
    if len < pre.len() {
        return None;
    }
    assert(path@.subrange(0, 0int + pre@.len()) =~= path@.take(pre@.len() as int));
    if !stands_at(path, &pre, 0) {
        return None;
    }
    if len - pre.len() < suf.len() {
        return None;
    }
    let ghost rest = path@.skip(pre@.len() as int);
    assert(path@.subrange(len - suf@.len(), len - suf@.len() + suf@.len()) =~= rest.skip(
        rest.len() - suf@.len(),
    ));
    if !stands_at(path, &suf, len - suf.len()) {
        return None;
    }
    let name: String = to_text(path, pre.len(), len - suf.len());
    assert(name@ =~= rest.take(rest.len() - suf@.len()));
    Some(name)
}

/// The migration that a file belongs to.
pub fn migration_name(path: &str) -> (r: Option<String>)
    ensures
        match migration_of(path@) {
            Some(name) => r is Some && r->0@ == name,
            None => r is None,
        },
{
    let chars: Vec<char> = to_chars(path);
    proof {
        reveal_strlit("up/");
        reveal_strlit("down/");
        if "up/"@.is_prefix_of(path@) && "down/"@.is_prefix_of(path@) {
            assert(path@[0] == "up/"@[0]);
            assert(path@[0] == "down/"@[0]);
        }
    }
    match name_below(&chars, "up/") {
        Some(name) => Some(name),
        None => name_below(&chars, "down/"),
    }
}

proof fn with_name_increasing(names: Seq<Seq<char>>, name: Seq<char>)
    requires
        increasing(names),
    ensures
        increasing(with_name(names, name)),
        forall|n: Seq<char>|
            #[trigger] with_name(names, name).contains(n) <==> names.contains(n) || n == name,
    decreases names.len(),
{
    let all = with_name(names, name);
    if names.len() == 0 || before(name, names.first()) {
        assert forall|i: int, j: int| 0 <= i < j < all.len() implies before(all[i], all[j]) by {
            assert(all[j] == names[j - 1]);
            if i == 0 {
                if j > 1 {
                    before_is_transitive(name, names[0], names[j - 1]);
                }
            } else {
                assert(all[i] == names[i - 1]);
            }
        }
        assert forall|n: Seq<char>|
            #[trigger] all.contains(n) <==> names.contains(n) || n == name by {
            assert(all[0] == name);
            if names.contains(n) {
                let k = names.index_of(n);
                assert(all[k + 1] == n);
            }
            if all.contains(n) && n != name {
                let k = all.index_of(n);
                assert(names[k - 1] == n);
            }
        }
    } else if name == names.first() {
    } else {
        let tail = names.drop_first();
        let rest = with_name(tail, name);
        assert forall|i: int, j: int| 0 <= i < j < tail.len() implies before(tail[i], tail[j]) by {
            assert(tail[i] == names[i + 1] && tail[j] == names[j + 1]);
        }
        with_name_increasing(tail, name);
        before_is_total(name, names.first());
        assert forall|i: int, j: int| 0 <= i < j < all.len() implies before(all[i], all[j]) by {
            assert(all[j] == rest[j - 1]);
            if i == 0 {
                assert(rest.contains(rest[j - 1]));
                if rest[j - 1] != name {
                    let k = tail.index_of(rest[j - 1]);
                    assert(names[k + 1] == rest[j - 1]);
                }
            } else {
                assert(all[i] == rest[i - 1]);
            }
        }
        assert forall|n: Seq<char>|
            #[trigger] all.contains(n) <==> names.contains(n) || n == name by {
            if names.contains(n) {
                let k = names.index_of(n);
                if k > 0 {
                    assert(tail[k - 1] == n);
                    assert(rest.contains(n));
                    let m = rest.index_of(n);
                    assert(all[m + 1] == n);
                } else {
                    assert(all[0] == n);
                }
            }
            if n == name {
                assert(rest.contains(n));
                let m = rest.index_of(n);
                assert(all[m + 1] == n);
            }
            if all.contains(n) {
                let m = all.index_of(n);
                if m > 0 {
                    assert(rest[m - 1] == n);
                    assert(rest.contains(n));
                    if n != name {
                        let k = tail.index_of(n);
                        assert(names[k + 1] == n);
                    }
                } else {
                    assert(names[0] == n);
                }
            }
        }
    }
}

/// The migrations are listed in order, and a name is listed if and only if some
/// file belongs to it.
pub proof fn migration_names_are_exact(files: Seq<FileView>)
    ensures
        increasing(migration_names(files)),
        forall|n: Seq<char>|
            #[trigger] migration_names(files).contains(n) <==> exists|k: int|
                0 <= k < files.len() && migration_of(#[trigger] files[k].path) == Some(n),
    decreases files.len(),
{
    if files.len() > 0 {
        let init = files.drop_last();
        let names = migration_names(init);
        migration_names_are_exact(init);
        let last = migration_of(files.last().path);
        if last is Some {
            with_name_increasing(names, last->0);
        }
        assert forall|n: Seq<char>|
            #[trigger] migration_names(files).contains(n) <==> exists|k: int|
                0 <= k < files.len() && migration_of(#[trigger] files[k].path) == Some(n) by {
            if names.contains(n) {
                let k = choose|k: int|
                    0 <= k < init.len() && migration_of(init[k].path) == Some(n);
                assert(migration_of(files[k].path) == Some(n));
            }
            if exists|k: int| 0 <= k < files.len() && migration_of(files[k].path) == Some(n) {
                let k = choose|k: int|
                    0 <= k < files.len() && migration_of(files[k].path) == Some(n);
                if k < init.len() {
                    assert(migration_of(init[k].path) == Some(n));
                }
            }
        }
    }
}

/// Puts a name into its place, unless it is there.
fn insert_name(names: &mut Vec<String>, name: String)
    ensures
        final(names).deep_view() == with_name(old(names).deep_view(), name@),
{
    let ghost all = names.deep_view();
    let len: usize = names.len();
    let mut i: usize = 0;
    proof {
        assert(all.skip(0) =~= all);
        assert(all.take(0) + with_name(all, name@) =~= with_name(all, name@));
    }
    while i < len
        invariant
            i <= len == names@.len(),
            *names == *old(names),
            all == names.deep_view(),
            with_name(all, name@) == all.take(i as int) + with_name(all.skip(i as int), name@),
        ensures
            i == len,
            with_name(all, name@) == all.take(i as int) + with_name(all.skip(i as int), name@),
        decreases len - i,
    {
        let ghost rest = all.skip(i as int);
        if comes_before(name.as_str(), names[i].as_str()) {
            names.insert(i, name);
            proof {
                assert(names.deep_view() =~= all.insert(i as int, name@));
                assert(all.insert(i as int, name@) =~= all.take(i as int) + (seq![name@] + rest));
            }
            return ;
        }
        if name == names[i] {
            assert(all.take(i as int) + rest =~= all);
            return ;
        }
        proof {
            assert(rest.drop_first() =~= all.skip(i + 1));
            assert(all.take(i as int) + (seq![rest.first()] + with_name(all.skip(i + 1), name@))
                =~= all.take(i + 1) + with_name(all.skip(i + 1), name@));
        }
        i += 1;
    }
    names.push(name);
    proof {
        assert(names.deep_view() =~= all.push(name@));
        assert(with_name(all.skip(len as int), name@) =~= seq![name@]);
        assert(all.take(len as int) =~= all);
        assert(all + seq![name@] =~= all.push(name@));
    }
}

/// Lists the migrations: every `<name>` with a file `up/<name>.surql` or
/// `down/<name>.surql`, once, in order.
pub fn discover_migrations(files: &Files) -> (r: Vec<String>)
    ensures
        r.deep_view() == migration_names(files@),
        increasing(r.deep_view()),
        forall|n: Seq<char>| #[trigger]
            r.deep_view().contains(n) <==> exists|k: int|
                0 <= k < files@.len() && migration_of(#[trigger] files@[k].path) == Some(n),
{
    let mut names: Vec<String> = Vec::new();
    let mut i: usize = 0;
    let ghost all = files@;
    assert(names.deep_view() =~= migration_names(all.take(0)));
    while i < files.entries.len()
        invariant
            i <= files.entries@.len(),
            all == files@,
            names.deep_view() == migration_names(all.take(i as int)),
        decreases files.entries@.len() - i,
    {
        assert(all.take(i + 1).drop_last() =~= all.take(i as int));
        if let Some(name) = migration_name(files.entries[i].path.as_str()) {
            insert_name(&mut names, name);
        }
        i += 1;
    }
    proof {
        assert(all.take(i as int) =~= all);
        migration_names_are_exact(all);
    }
    names
}

impl Files {
    /// The bytes of the file at `path`.
    pub fn get(&self, path: &str) -> (r: Option<&Vec<u8>>)
        ensures
            match contents(self@, path@) {
                Some(bytes) => r is Some && r->0@ == bytes,
                None => r is None,
            },
    {
        let ghost all = self@;
        let wanted: String = path.to_owned();
        let mut i: usize = 0;
        assert(all.skip(0) =~= all);
        while i < self.entries.len()
            invariant
                i <= self.entries@.len(),
                all == self@,
                wanted@ == path@,
                contents(all, path@) == contents(all.skip(i as int), path@),
            decreases self.entries@.len() - i,
        {
            assert(all.skip(i as int).drop_first() =~= all.skip(i + 1));
            if self.entries[i].path == wanted {
                return Some(&self.entries[i].data);
            }
            i += 1;
        }
        None
    }
}

/// Reads the text of the file at `path`.
pub fn load_file(files: &Files, path: &str) -> (r: Result<String, MigrationError>)
    ensures
        match file_text(files@, path@) {
            Ok(text) => r is Ok && r->Ok_0@ == text,
            Err(e) => r is Err && r->Err_0@ == e,
        },
{
    match files.get(path) {
        None => Err(MigrationError::NoDownFile(path.to_owned())),
        Some(bytes) => match decode(bytes) {
            Ok(text) => {
                proof {
                    vstd::utf8::encode_utf8_decode_utf8(text@);
                }
                Ok(text)
            },
            Err(fault) => Err(MigrationError::Encoding(fault)),
        },
    }
}

} // verus!

//! File names: their extension and their stem, as `Path::extension` and
//! `Path::file_stem` split them.
use vstd::prelude::*;
use crate::text::{chars_of, string_of, str_eq};

verus! {

/// `i` is the position of the last `.` in `name`.
pub open spec fn is_last_dot(name: Seq<char>, i: int) -> bool {
    0 <= i < name.len() && name[i] == '.' && forall|j: int| i < j < name.len() ==> name[j] != '.'
}

/// The position of the last `.` in `name` that splits it into a stem and an
/// extension: one that is not the first character.
pub open spec fn extension_dot(name: Seq<char>) -> Option<int> {
    if exists|i: int| is_last_dot(name, i) && i > 0 {
        Some(choose|i: int| is_last_dot(name, i) && i > 0)
    } else {
        None
    }
}

/// The extension of a file name (`Path::extension`, for every name that
/// `Path::file_name` gives, which is never `..`): what follows the last `.`,
/// unless that `.` starts the name or there is none.
pub open spec fn extension_of(name: Seq<char>) -> Option<Seq<char>> {
    match extension_dot(name) {
        Some(i) => Some(name.skip(i + 1)),
        None => None,
    }
}

/// The stem of a file name (`Path::file_stem`, for every name that
/// `Path::file_name` gives): what comes before the last `.`, or the whole
/// name when `extension_of` finds no extension.
pub open spec fn stem_of(name: Seq<char>) -> Seq<char> {
    match extension_dot(name) {
        Some(i) => name.take(i),
        None => name,
    }
}

/// The text `jsonl`.
pub open spec fn jsonl() -> Seq<char> {
    seq!['j', 's', 'o', 'n', 'l']
}

proof fn lemma_last_dot_unique(name: Seq<char>, i: int, k: int)
    requires
        is_last_dot(name, i),
        is_last_dot(name, k),
    ensures
        i == k,
{
}

fn find_extension_dot(name: &Vec<char>) -> (r: Option<usize>)
    ensures
        r matches Some(i) ==> extension_dot(name@) == Some(i as int) && i < name.len(),
        r is None ==> extension_dot(name@) is None,
{
    let mut i: usize = name.len();
    while i > 0
        invariant
            i <= name@.len(),
            forall|j: int| i <= j < name@.len() ==> name@[j] != '.',
        decreases i,
    {
        if name[i - 1] == '.' {
            if i - 1 == 0 {
                proof {
                    assert forall|k: int| !(is_last_dot(name@, k) && k > 0) by {
                        if is_last_dot(name@, k) && k > 0 {
                            lemma_last_dot_unique(name@, 0, k);
                        }
                    }
                }
                return None;
            }
            proof {
                assert(is_last_dot(name@, i - 1));
                let k = choose|k: int| is_last_dot(name@, k) && k > 0;
                lemma_last_dot_unique(name@, i - 1, k);
            }
            return Some(i - 1);
        }
        i = i - 1;
    }
    None
}

/// The extension of a file name (`Path::extension`).
pub fn file_extension(name: &str) -> (r: Option<String>)
    ensures
        r matches Some(e) ==> extension_of(name@) == Some(e@),
        r is None ==> extension_of(name@) is None,
{
    let cs = chars_of(name);
    match find_extension_dot(&cs) {
        Some(i) => {
            let mut ext: Vec<char> = Vec::new();
            let mut k: usize = i + 1;
            while k < cs.len()
                invariant
                    i + 1 <= k <= cs@.len(),
                    ext@ == cs@.subrange(i + 1, k as int),
                decreases cs@.len() - k,
            {
                ext.push(cs[k]);
                k = k + 1;
                assert(ext@ =~= cs@.subrange(i + 1, k as int));
            }
            assert(ext@ =~= cs@.skip(i + 1));
            Some(string_of(&ext))
        },
        None => None,
    }
}

/// The stem of a file name (`Path::file_stem`), or the empty text when there
/// is no name.
pub fn file_stem(name: Option<&str>) -> (r: String)
    ensures
        name matches Some(n) ==> r@ == stem_of(n@),
        name is None ==> r@ == Seq::<char>::empty(),
{
    match name {
        Some(n) => {
            let cs = chars_of(n);
            match find_extension_dot(&cs) {
                Some(i) => {
                    let mut stem: Vec<char> = Vec::new();
                    let mut k: usize = 0;
                    while k < i
                        invariant
                            k <= i,
                            i < cs@.len(),
                            stem@ == cs@.take(k as int),
                        decreases i - k,
                    {
                        stem.push(cs[k]);
                        k = k + 1;
                        assert(stem@ =~= cs@.take(k as int));
                    }
                    string_of(&stem)
                },
                None => string_of(&cs),
            }
        },
        None => String::new(),
    }
}

/// Whether a file name has the extension `ext`.
pub fn has_extension(name: Option<&str>, ext: &str) -> (r: bool)
    ensures
        r == (name matches Some(n) && extension_of(n@) == Some(ext@)),
{
    match name {
        Some(n) => match file_extension(n) {
            Some(e) => str_eq(e.as_str(), ext),
            None => false,
        },
        None => false,
    }
}

/// Whether a directory entry is a transcript: a file whose name has the
/// extension `jsonl`. `is_file` tells whether the entry is a file, and
/// `file_name` is its name (`None` when it has none or it is not UTF-8).
pub fn is_top_level_jsonl(is_file: bool, file_name: Option<&str>) -> (r: bool)
    ensures
        r == (is_file && (file_name matches Some(n) && extension_of(n@) == Some(jsonl()))),
{
    let ext = "jsonl";
    proof {
        reveal_strlit("jsonl");
    }
    assert(ext@ =~= jsonl());
    is_file && has_extension(file_name, ext)
}

} // verus!

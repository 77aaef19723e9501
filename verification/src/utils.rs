//! Where the output of a run goes.
use crate::text::{back_run_len, chars_of, copy_range, extend, scan_back, string_of, CharClass};
use vstd::prelude::*;

verus! {

/// What the output file's name ends with.
pub open spec fn output_suffix() -> Seq<char> {
    ".plus.txt"@
}

/// The file name of a path: what follows its last `/`, or all of it.
pub open spec fn file_name(path: Seq<char>) -> Seq<char> {
    path.skip(path.len() - back_run_len(path, CharClass::Except('/')))
}

/// The directory of a path: what stands before its last `/`; empty where
/// the path holds none.
pub open spec fn directory(path: Seq<char>) -> Seq<char> {
    let name_len = back_run_len(path, CharClass::Except('/'));
    if name_len < path.len() {
        path.take(path.len() - name_len - 1)
    } else {
        Seq::empty()
    }
}

/// A file name without its final extension: what stands before its last
/// `.`, or all of it where it holds none.
pub open spec fn stem(name: Seq<char>) -> Seq<char> {
    let ext_len = back_run_len(name, CharClass::Except('.'));
    if ext_len < name.len() {
        name.take(name.len() - ext_len - 1)
    } else {
        name
    }
}

/// The output path for an input path: same directory, the file name with
/// its final extension replaced by `.plus.txt`.
pub open spec fn output_path(path: Seq<char>) -> Seq<char> {
    directory(path) + seq!['/'] + stem(file_name(path)) + output_suffix()
}

/// Derives the path of the output file from the absolute path of the
/// input file.
pub fn write_filepath(path: &str) -> (out: Option<String>)
    ensures
        out is Some,
        out->Some_0@ == output_path(path@),
{
    let v = chars_of(path);
    let n = v.len();
    let name_at = scan_back(&v, 0, n, CharClass::Except('/'));
    let ext_at = scan_back(&v, name_at, n, CharClass::Except('.'));
    proof {
        assert(v@.subrange(0, n as int) =~= v@);
        assert(v@.subrange(name_at as int, n as int) =~= file_name(v@));
    }
    let mut out: Vec<char> = Vec::new();
    if name_at > 0 {
        let dir = copy_range(&v, 0, name_at - 1);
        extend(&mut out, &dir);
    }
    out.push('/');
    let stem_end: usize = if ext_at > name_at {
        ext_at - 1
    } else {
        n
    };
    let kept = copy_range(&v, name_at, stem_end);
    extend(&mut out, &kept);
    let suffix = chars_of(".plus.txt");
    extend(&mut out, &suffix);
    proof {
        assert(kept@ =~= stem(file_name(v@)));
        assert(out@ =~= output_path(path@));
    }
    Some(string_of(&out))
}

} // verus!

//! How paths are shown.
use vstd::prelude::*;

verus! {

/// `path` as it is shown: an absolute path or one that starts with a dot
/// stays as it is, any other gets `./` in front.
pub open spec fn shown_path(path: Seq<char>) -> Seq<char> {
    if path.len() > 0 && (path[0] == '/' || path[0] == '.') {
        path
    } else {
        seq!['.', '/'] + path
    }
}

/// Shows `path` relative to the current directory unless it is absolute or
/// starts with a dot.
pub fn render_path(path: &str) -> (r: String)
    ensures
        r@ == shown_path(path@),
{
    let n = path.unicode_len();
    if n > 0 && (path.get_char(0) == '/' || path.get_char(0) == '.') {
        let mut result = String::new();
        result.push_str(path);
        assert(result@ =~= path@);
        result
    } else {
        let mut result = String::new();
        result.push('.');
        result.push('/');
        result.push_str(path);
        assert(result@ =~= seq!['.', '/'] + path@);
        result
    }
}

} // verus!

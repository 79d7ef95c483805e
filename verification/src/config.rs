//! Where the configuration and the reading progress live, and `~` in paths.
use vstd::prelude::*;
use crate::strs::{append_chars, chars_of, copy_range, string_of};

verus! {

/// The configuration file's contents: where the books are.
#[derive(Debug)]
pub struct Config {
    pub library_dir: String,
}

/// `PathBuf::join` on Unix: an absolute `rest` replaces `base`; otherwise `rest`
/// is appended, after a `'/'` unless `base` is empty or already ends with one.
pub open spec fn join(base: Seq<char>, rest: Seq<char>) -> Seq<char> {
    if rest.len() > 0 && rest[0] == '/' {
        rest
    } else if base.len() > 0 && base.last() != '/' {
        base + seq!['/'] + rest
    } else {
        base + rest
    }
}

/// The home directory: `HOME`, else `USERPROFILE`, else `"."`.
pub open spec fn home_of(home: Option<Seq<char>>, userprofile: Option<Seq<char>>) -> Seq<char> {
    match home {
        Some(h) => h,
        None => match userprofile {
            Some(u) => u,
            None => seq!['.'],
        },
    }
}

/// A path with a leading `~` made the home directory.
pub open spec fn expanded(path: Seq<char>, home: Seq<char>) -> Seq<char> {
    if path.len() >= 2 && path[0] == '~' && path[1] == '/' {
        join(home, path.skip(2))
    } else if path == seq!['~'] {
        home
    } else {
        path
    }
}

/// The configuration directory: `BOOK_CONFIG_DIR` when set and not empty, else `~/.config`.
pub open spec fn config_dir_of(book_config_dir: Option<Seq<char>>, home: Seq<char>) -> Seq<char> {
    match book_config_dir {
        Some(d) => if d.len() > 0 { d } else { join(home, seq!['.', 'c', 'o', 'n', 'f', 'i', 'g']) },
        None => join(home, seq!['.', 'c', 'o', 'n', 'f', 'i', 'g']),
    }
}

/// `PathBuf::join` on Unix paths held as text.
pub fn join_path(base: &str, rest: &str) -> (r: String)
    ensures
        r@ == join(base@, rest@),
{
    let b = chars_of(base);
    let t = chars_of(rest);
    if t.len() > 0 && t[0] == '/' {
        return string_of(t.as_slice());
    }
    let mut out = copy_range(b.as_slice(), 0, b.len());
    assert(out@ =~= b@);
    if b.len() > 0 && b[b.len() - 1] != '/' {
        out.push('/');
    }
    append_chars(&mut out, t.as_slice());
    string_of(out.as_slice())
}

/// The home directory, from the values of `HOME` and `USERPROFILE`.
pub fn home_dir(home: Option<String>, userprofile: Option<String>) -> (r: String)
    ensures
        r@ == home_of(crate::strs::opt_view(home), crate::strs::opt_view(userprofile)),
{
    match home {
        Some(h) => h,
        None => match userprofile {
            Some(u) => u,
            None => string_of(&['.']),
        },
    }
}

/// Expands a leading `~` (`~` alone or `~/...`) to the home directory.
pub fn expand_tilde(path: &str, home: &str) -> (r: String)
    ensures
        r@ == expanded(path@, home@),
{
    let p = chars_of(path);
    if p.len() >= 2 && p[0] == '~' && p[1] == '/' {
        let rest = copy_range(p.as_slice(), 2, p.len());
        assert(rest@ =~= p@.skip(2));
        let rest_s = string_of(rest.as_slice());
        join_path(home, rest_s.as_str())
    } else if p.len() == 1 && p[0] == '~' {
        assert(p@ =~= seq!['~']);
        home.to_owned()
    } else {
        assert(p@ != seq!['~']);
        path.to_owned()
    }
}

/// The configuration directory, from the value of `BOOK_CONFIG_DIR` and the home directory.
pub fn config_dir(book_config_dir: Option<String>, home: &str) -> (r: String)
    ensures
        r@ == config_dir_of(crate::strs::opt_view(book_config_dir), home@),
{
    match book_config_dir {
        Some(d) => {
            if !d.as_str().is_empty() {
                return d;
            }
            join_path(home, string_of(&['.', 'c', 'o', 'n', 'f', 'i', 'g']).as_str())
        },
        None => join_path(home, string_of(&['.', 'c', 'o', 'n', 'f', 'i', 'g']).as_str()),
    }
}

/// The configuration file in a configuration directory.
pub fn config_path(config_dir: &str) -> (r: String)
    ensures
        r@ == join(config_dir@, seq!['b', 'o', 'o', 'k', '.', 't', 'o', 'm', 'l']),
{
    let name = string_of(&['b', 'o', 'o', 'k', '.', 't', 'o', 'm', 'l']);
    join_path(config_dir, name.as_str())
}

/// The reading-progress file in a configuration directory.
pub fn progress_path(config_dir: &str) -> (r: String)
    ensures
        r@ == join(
            config_dir@,
            seq!['b', 'o', 'o', 'k', '-', 'p', 'r', 'o', 'g', 'r', 'e', 's', 's', '.', 't', 'o', 'm', 'l'],
        ),
{
    let name = string_of(&['b', 'o', 'o', 'k', '-', 'p', 'r', 'o', 'g', 'r', 'e', 's', 's', '.', 't', 'o', 'm', 'l']);
    join_path(config_dir, name.as_str())
}

} // verus!

//! Scenario file names.

use vstd::prelude::*;

verus! {

/// Whether `s` ends with `suffix`.
pub open spec fn ends_with(s: Seq<char>, suffix: Seq<char>) -> bool {
    s.len() >= suffix.len() && s.subrange(s.len() - suffix.len(), s.len() as int) == suffix
}

/// The extension scenario files carry.
pub open spec fn toml_ext() -> Seq<char> {
    seq!['.', 't', 'o', 'm', 'l']
}

/// `name` without a trailing ".toml", if it has one.
pub open spec fn spec_strip_toml_ext(name: Seq<char>) -> Seq<char> {
    if ends_with(name, toml_ext()) {
        name.subrange(0, name.len() - 5)
    } else {
        name
    }
}

/// Whether `s` ends with ".toml".
fn has_toml_ext(s: &str) -> (b: bool)
    ensures
        b == ends_with(s@, toml_ext()),
{
    let n = s.unicode_len();
    if n < 5 {
        return false;
    }
    let b = s.get_char(n - 5) == '.' && s.get_char(n - 4) == 't' && s.get_char(n - 3) == 'o'
        && s.get_char(n - 2) == 'm' && s.get_char(n - 1) == 'l';
    proof {
        let tail = s@.subrange(n - 5, n as int);
        if b {
            assert(tail =~= toml_ext());
        } else {
            if tail == toml_ext() {
                assert(tail[0] == s@[n - 5]);
                assert(tail[1] == s@[n - 4]);
                assert(tail[2] == s@[n - 3]);
                assert(tail[3] == s@[n - 2]);
                assert(tail[4] == s@[n - 1]);
            }
        }
    }
    b
}

/// A scenario name from a file name: the name without a trailing ".toml".
pub fn strip_toml_ext(name: &str) -> (s: String)
    ensures
        s@ == spec_strip_toml_ext(name@),
{
    if has_toml_ext(name) {
        let n = name.unicode_len();
        name.substring_char(0, n - 5).to_string()
    } else {
        name.to_string()
    }
}

/// The file a scenario named `name` is stored in: the name followed by
/// ".toml".
pub fn scenario_file_name(name: &str) -> (f: String)
    ensures
        f@ == name@ + toml_ext(),
{
    let mut f = name.to_string();
    let ext = ".toml";
    proof {
        reveal_strlit(".toml");
    }
    f.append(ext);
    assert(ext@ =~= toml_ext());
    f
}

/// The scenario name a directory entry named `file_name` stands for: its
/// stem, when the file's extension is "toml" (a file name of the form
/// `<stem>.toml` with a non-empty stem); otherwise none.
pub fn toml_scenario_stem(file_name: &str) -> (stem: Option<String>)
    ensures
        stem is Some <==> (ends_with(file_name@, toml_ext()) && file_name@.len() > 5),
        stem matches Some(s) ==> s@ == spec_strip_toml_ext(file_name@),
{
    if has_toml_ext(file_name) && file_name.unicode_len() > 5 {
        Some(strip_toml_ext(file_name))
    } else {
        None
    }
}

/// A scenario saved under a non-empty name is listed under that name again:
/// its file name is a ".toml" file whose stem, and whose name without the
/// extension, is the name it was saved under.
pub proof fn lemma_file_name_round_trip(name: Seq<char>)
    requires
        name.len() > 0,
    ensures
        ends_with(name + toml_ext(), toml_ext()),
        (name + toml_ext()).len() > 5,
        spec_strip_toml_ext(name + toml_ext()) == name,
{
    let f = name + toml_ext();
    assert(f.subrange(f.len() - 5, f.len() as int) =~= toml_ext());
    assert(f.subrange(0, f.len() - 5) =~= name);
}

} // verus!

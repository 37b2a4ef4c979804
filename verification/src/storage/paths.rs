//! Where channel logs live: the storage root and the file of each channel.

use vstd::prelude::*;
use vstd::string::StringExecFns;

use vstd::utf8::encode_utf8;

use crate::cli::validate::valid_channel_name;
use crate::text::chars_of;

verus! {

/// Appending a component to a path, as `PathBuf::push` does on Unix: an
/// absolute component replaces the path; otherwise a `/` separates the two
/// unless the path is empty or already ends in one.
pub open spec fn path_join(base: Seq<char>, comp: Seq<char>) -> Seq<char> {
    if comp.len() > 0 && comp[0] == '/' {
        comp
    } else if base.len() == 0 || base.last() == '/' {
        base + comp
    } else {
        base + "/"@ + comp
    }
}

/// The view of an optional string argument.
pub open spec fn opt_view(o: Option<&str>) -> Option<Seq<char>> {
    match o {
        Some(s) => Some(s@),
        None => None,
    }
}

/// A set environment value: present and non-empty.
pub open spec fn set_value(o: Option<Seq<char>>) -> bool {
    o matches Some(v) && v.len() > 0
}

/// The storage root, by precedence: the command-line root, then `TSUJI_ROOT`,
/// then `$XDG_DATA_HOME/tsuji`, then `$HOME/.local/share/tsuji` (with `.` for
/// an unset home). Empty environment values count as unset, `HOME` included.
pub open spec fn root_for(
    cli_root: Option<Seq<char>>,
    tsuji_root: Option<Seq<char>>,
    xdg_data_home: Option<Seq<char>>,
    home: Option<Seq<char>>,
) -> Seq<char> {
    if cli_root is Some {
        cli_root->0
    } else if set_value(tsuji_root) {
        tsuji_root->0
    } else if set_value(xdg_data_home) {
        path_join(xdg_data_home->0, "tsuji"@)
    } else {
        let home_dir = if set_value(home) {
            home->0
        } else {
            "."@
        };
        path_join(path_join(path_join(home_dir, ".local"@), "share"@), "tsuji"@)
    }
}

/// An empty environment value behaves exactly as an absent one, for
/// `TSUJI_ROOT`, `XDG_DATA_HOME` and `HOME` alike.
pub proof fn lemma_empty_env_is_unset(
    cli_root: Option<Seq<char>>,
    tsuji_root: Option<Seq<char>>,
    xdg_data_home: Option<Seq<char>>,
    home: Option<Seq<char>>,
)
    ensures
        root_for(cli_root, Some(Seq::empty()), xdg_data_home, home) == root_for(
            cli_root,
            None,
            xdg_data_home,
            home,
        ),
        root_for(cli_root, tsuji_root, Some(Seq::empty()), home) == root_for(
            cli_root,
            tsuji_root,
            None,
            home,
        ),
        root_for(cli_root, tsuji_root, xdg_data_home, Some(Seq::empty())) == root_for(
            cli_root,
            tsuji_root,
            xdg_data_home,
            None,
        ),
{
}

/// The log file of `channel` under `root`: `<root>/<channel>.jsonl`.
pub open spec fn channel_file(root: Seq<char>, channel: Seq<char>) -> Seq<char> {
    path_join(root, channel + ".jsonl"@)
}

proof fn lemma_valid_name_is_relative(c: Seq<char>)
    requires
        valid_channel_name(encode_utf8(c)),
    ensures
        c.len() > 0,
        c[0] != '/',
{
    if c.len() == 0 {
        assert(encode_utf8(c) =~= Seq::<u8>::empty());
    } else if c[0] == '/' {
        assert((c[0] as u32) == 47);
        assert((47u32 & 0x7F) as u8 == 47) by (bit_vector);
        assert(encode_utf8(c)[0] == 47);
        assert(!crate::cli::validate::channel_byte(encode_utf8(c)[0]));
    }
}

/// Distinct valid channel names have distinct log files under any root, so
/// what is appended to one channel never shows in another.
pub proof fn lemma_distinct_channels_distinct_files(root: Seq<char>, a: Seq<char>, b: Seq<char>)
    requires
        valid_channel_name(encode_utf8(a)),
        valid_channel_name(encode_utf8(b)),
        a != b,
    ensures
        channel_file(root, a) != channel_file(root, b),
{
    lemma_valid_name_is_relative(a);
    lemma_valid_name_is_relative(b);
    let ca = a + ".jsonl"@;
    let cb = b + ".jsonl"@;
    assert(ca[0] == a[0]);
    assert(cb[0] == b[0]);
    if channel_file(root, a) == channel_file(root, b) {
        let base = if root.len() == 0 || root.last() == '/' {
            root
        } else {
            root + "/"@
        };
        assert(channel_file(root, a) =~= base + ca);
        assert(channel_file(root, b) =~= base + cb);
        assert(ca =~= (base + ca).skip(base.len() as int));
        assert(cb =~= (base + cb).skip(base.len() as int));
        assert(a =~= ca.take(a.len() as int));
        assert(b =~= cb.take(b.len() as int));
    }
}

/// Appends `comp` to the path `base` (`PathBuf::join` on Unix).
pub fn join_path(base: String, comp: &str) -> (r: String)
    ensures
        r@ == path_join(base@, comp@),
{
    let cc = chars_of(comp);
    if cc.len() > 0 && cc[0] == '/' {
        return String::from_str(comp);
    }
    let bc = chars_of(base.as_str());
    let mut out = base;
    if bc.len() == 0 || bc[bc.len() - 1] == '/' {
        out.append(comp);
    } else {
        out.append("/");
        out.append(comp);
    }
    out
}

/// Resolves the storage root directory using the precedence:
/// `cli_root` > `TSUJI_ROOT` (`tsuji_root`) > `$XDG_DATA_HOME/tsuji` >
/// `$HOME/.local/share/tsuji`. Empty strings in env values are treated as
/// unset.
pub fn resolve_root(
    cli_root: Option<&str>,
    tsuji_root: Option<&str>,
    xdg_data_home: Option<&str>,
    home: Option<&str>,
) -> (r: String)
    ensures
        r@ == root_for(opt_view(cli_root), opt_view(tsuji_root), opt_view(xdg_data_home), opt_view(home)),
{
    if let Some(p) = cli_root {
        return String::from_str(p);
    }
    if let Some(v) = tsuji_root {
        if !v.is_empty() {
            return String::from_str(v);
        }
    }
    if let Some(v) = xdg_data_home {
        if !v.is_empty() {
            return join_path(String::from_str(v), "tsuji");
        }
    }
    let home_dir = match home {
        Some(h) if !h.is_empty() => h,
        _ => ".",
    };
    let local = join_path(String::from_str(home_dir), ".local");
    let share = join_path(local, "share");
    join_path(share, "tsuji")
}

/// Builds the path of a channel's JSON Lines file under `root`.
pub fn channel_path(root: &str, channel: &str) -> (r: String)
    ensures
        r@ == channel_file(root@, channel@),
{
    let mut file = String::from_str(channel);
    file.append(".jsonl");
    join_path(String::from_str(root), file.as_str())
}

} // verus!

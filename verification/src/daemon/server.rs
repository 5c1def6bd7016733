//! Where the daemon's IPC socket lives.

use vstd::prelude::*;

use crate::text::{decimal, push_decimal};

verus! {

broadcast use vstd::string::group_string_axioms;

/// `PathBuf::join` of a relative component: a `'/'` goes between unless the
/// base is empty or already ends in one.
pub open spec fn join_path(base: Seq<char>, component: Seq<char>) -> Seq<char> {
    if base.len() > 0 && base.last() != '/' {
        base + "/"@ + component
    } else {
        base + component
    }
}

/// `$XDG_RUNTIME_DIR/uclip_daemon/uclip.sock`, or `/tmp/uclip-$UID.sock`
/// without a runtime directory.
pub open spec fn socket_path_spec(runtime_dir: Option<Seq<char>>, uid: u32) -> Seq<char> {
    match runtime_dir {
        Some(dir) => join_path(join_path(dir, "uclip_daemon"@), "uclip.sock"@),
        None => "/tmp/uclip-"@ + decimal(uid as nat) + ".sock"@,
    }
}

fn push_component(path: &mut String, component: &str)
    ensures
        final(path)@ == join_path(old(path)@, component@),
{
    proof {
        reveal_strlit("/");
    }
    let n = path.unicode_len();
    if n > 0 && path.as_str().get_char(n - 1) != '/' {
        path.append("/");
    }
    path.append(component);
}

/// The socket path for the given `XDG_RUNTIME_DIR` (if set) and user id.
pub fn socket_path_for(runtime_dir: Option<&str>, uid: u32) -> (p: String)
    ensures
        p@ == socket_path_spec(
            match runtime_dir {
                Some(d) => Some(d@),
                None => None,
            },
            uid,
        ),
{
    match runtime_dir {
        Some(dir) => {
            let mut p = dir.to_owned();
            push_component(&mut p, "uclip_daemon");
            push_component(&mut p, "uclip.sock");
            p
        },
        None => {
            proof {
                reveal_strlit("/tmp/uclip-");
                reveal_strlit(".sock");
            }
            let mut p = "/tmp/uclip-".to_owned();
            push_decimal(&mut p, uid as u64);
            p.append(".sock");
            p
        },
    }
}

} // verus!

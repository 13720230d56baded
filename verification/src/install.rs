//! Text rendered for host service-manager integration: the environment file,
//! the unit file, and the unit name taken from a path.
use vstd::prelude::*;

use crate::text::{after_last_sep, dec_of, lemma_after_last_sep, push_str_chars};

verus! {

/// The environment file for the installed service.
pub open spec fn spec_render_env(
    host: Seq<char>,
    port: u16,
    default_host: Seq<char>,
    data_file: Seq<char>,
) -> Seq<char> {
    "# home-server-navigator env\nHOST="@ + host + "\nPORT="@ + dec_of(port as nat)
        + "\nDEFAULT_HOST="@ + default_host + "\nDATA_FILE="@ + data_file + "\n"@
}

/// Renders the environment file for the installed service.
pub fn render_env(host: &str, port: u16, default_host: &str, data_file: &str) -> (r: String)
    ensures
        r@ == spec_render_env(host@, port, default_host@, data_file@),
{
    let mut out: Vec<char> = Vec::new();
    push_str_chars(&mut out, "# home-server-navigator env\nHOST=");
    push_str_chars(&mut out, host);
    push_str_chars(&mut out, "\nPORT=");
    crate::text::push_dec_u64(&mut out, port as u64);
    push_str_chars(&mut out, "\nDEFAULT_HOST=");
    push_str_chars(&mut out, default_host);
    push_str_chars(&mut out, "\nDATA_FILE=");
    push_str_chars(&mut out, data_file);
    push_str_chars(&mut out, "\n");
    proof {
        assert(out@ =~= spec_render_env(host@, port, default_host@, data_file@));
    }
    crate::text::chars_to_string(&out)
}

/// The unit file for the installed service.
pub open spec fn spec_render_unit(install_path: Seq<char>, env_path: Seq<char>) -> Seq<char> {
    "[Unit]\nDescription=Home Server Navigator\nAfter=network-online.target\nWants=network-online.target\n\n[Service]\nType=simple\nEnvironmentFile="@
        + env_path
        + "\nExecStart="@
        + install_path
        + " --host ${HOST} --port ${PORT} --default-host ${DEFAULT_HOST} --data-file ${DATA_FILE}\nRestart=on-failure\nRestartSec=2\n\nNoNewPrivileges=true\nPrivateTmp=true\nProtectSystem=full\nProtectHome=true\n\n[Install]\nWantedBy=multi-user.target\n"@
}

/// Renders the unit file for the installed service.
pub fn render_unit(install_path: &str, env_path: &str) -> (r: String)
    ensures
        r@ == spec_render_unit(install_path@, env_path@),
{
    let mut out: Vec<char> = Vec::new();
    push_str_chars(
        &mut out,
        "[Unit]\nDescription=Home Server Navigator\nAfter=network-online.target\nWants=network-online.target\n\n[Service]\nType=simple\nEnvironmentFile=",
    );
    push_str_chars(&mut out, env_path);
    push_str_chars(&mut out, "\nExecStart=");
    push_str_chars(&mut out, install_path);
    push_str_chars(
        &mut out,
        " --host ${HOST} --port ${PORT} --default-host ${DEFAULT_HOST} --data-file ${DATA_FILE}\nRestart=on-failure\nRestartSec=2\n\nNoNewPrivileges=true\nPrivateTmp=true\nProtectSystem=full\nProtectHome=true\n\n[Install]\nWantedBy=multi-user.target\n",
    );
    proof {
        assert(out@ =~= spec_render_unit(install_path@, env_path@));
    }
    crate::text::chars_to_string(&out)
}

/// The unit name of a unit-file path: what stands after the last slash; a
/// path with nothing there has no usable name.
pub fn unit_name_from_path(path: &str) -> (r: Option<String>)
    ensures
        r.deep_view() == (if after_last_sep(path@, '/').len() == 0 {
            Option::<Seq<char>>::None
        } else {
            Option::Some(after_last_sep(path@, '/'))
        }),
{
    let v = crate::text::str_to_chars(path);
    let n = v.len();
    let mut cut: usize = 0;
    let mut i: usize = 0;
    while i < n
        invariant
            cut <= i <= n,
            n == v@.len(),
            v@ == path@,
            cut == 0 || v@[cut - 1] == '/',
            forall|j: int| cut <= j < i ==> v@[j] != '/',
        decreases n - i,
    {
        if v[i] == '/' {
            cut = i + 1;
        }
        i = i + 1;
    }
    proof {
        lemma_after_last_sep(v@, '/', cut as int);
    }
    if cut == n {
        return Option::None;
    }
    let mut name: Vec<char> = Vec::new();
    let mut t: usize = cut;
    while t < n
        invariant
            cut <= t <= n,
            n == v@.len(),
            name@ == v@.subrange(cut as int, t as int),
        decreases n - t,
    {
        name.push(v[t]);
        t = t + 1;
        proof {
            assert(name@ =~= v@.subrange(cut as int, t as int));
        }
    }
    proof {
        assert(name@ =~= v@.skip(cut as int));
    }
    Option::Some(crate::text::chars_to_string(&name))
}

} // verus!

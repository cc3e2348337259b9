use vstd::prelude::*;
use crate::scan::B_NL;
use crate::lines::push_bytes;

verus! {

pub const B_COLON: u8 = 58; // :

/// The four ordered lists of hook commands run around a scan.
pub struct Hooks {
    pub pre_block: Vec<Vec<u8>>,
    pub post_block: Vec<Vec<u8>>,
    pub pre_file: Vec<Vec<u8>>,
    pub post_file: Vec<Vec<u8>>,
}

/// The mathematical image of `Hooks`: each list as a sequence of commands.
pub ghost struct HooksModel {
    pub pre_block: Seq<Seq<u8>>,
    pub post_block: Seq<Seq<u8>>,
    pub pre_file: Seq<Seq<u8>>,
    pub post_file: Seq<Seq<u8>>,
}

impl View for Hooks {
    type V = HooksModel;

    open spec fn view(&self) -> HooksModel {
        HooksModel {
            pre_block: self.pre_block.deep_view(),
            post_block: self.post_block.deep_view(),
            pre_file: self.pre_file.deep_view(),
            post_file: self.post_file.deep_view(),
        }
    }
}

impl Hooks {
    /// Hook lists that run nothing at all.
    pub fn empty() -> (r: Hooks)
        ensures
            r@.pre_block.len() == 0,
            r@.post_block.len() == 0,
            r@.pre_file.len() == 0,
            r@.post_file.len() == 0,
    {
        let r = Hooks {
            pre_block: Vec::new(),
            post_block: Vec::new(),
            pre_file: Vec::new(),
            post_file: Vec::new(),
        };
        proof {
            assert(r@.pre_block =~~= Seq::<Seq<u8>>::empty());
            assert(r@.post_block =~~= Seq::<Seq<u8>>::empty());
            assert(r@.pre_file =~~= Seq::<Seq<u8>>::empty());
            assert(r@.post_file =~~= Seq::<Seq<u8>>::empty());
        }
        r
    }
}

/// The execution context a scan runs under: working directory, search
/// path, the alternative-command table, and the hook lists. It is
/// read-only to the scanning engine.
pub struct Config {
    pub pwd: Vec<u8>,
    pub path: Vec<u8>,
    pub alt: Vec<(Vec<u8>, Vec<u8>)>,
    pub hooks: Hooks,
}

/// The mathematical image of `Config`.
pub ghost struct ConfigModel {
    pub pwd: Seq<u8>,
    pub path: Seq<u8>,
    pub alt: Seq<(Seq<u8>, Seq<u8>)>,
    pub hooks: HooksModel,
}

impl View for Config {
    type V = ConfigModel;

    open spec fn view(&self) -> ConfigModel {
        ConfigModel {
            pwd: self.pwd@,
            path: self.path@,
            alt: self.alt.deep_view(),
            hooks: self.hooks@,
        }
    }
}

/// First match of a key in the alternative-command table.
pub open spec fn lookup_alt(alt: Seq<(Seq<u8>, Seq<u8>)>, key: Seq<u8>) -> Option<Seq<u8>>
    decreases alt.len(),
{
    if alt.len() == 0 {
        None
    } else if alt[0].0 == key {
        Some(alt[0].1)
    } else {
        lookup_alt(alt.skip(1), key)
    }
}

/// What actually runs for a command: its substitute if the table maps
/// it, otherwise the command as written.
pub open spec fn subst_spec(alt: Seq<(Seq<u8>, Seq<u8>)>, cmd: Seq<u8>) -> Seq<u8> {
    match lookup_alt(alt, cmd) {
        Some(a) => a,
        None => cmd,
    }
}

impl Config {
    /// The table maps each command to at most one substitute.
    pub open spec fn wf(&self) -> bool {
        forall|i: int, j: int|
            0 <= i < j < self@.alt.len() ==> (#[trigger] self@.alt[i]).0 != (
            #[trigger] self@.alt[j]).0
    }

    /// A context that runs commands as written, in the current directory,
    /// with an empty extra search path and no hooks.
    pub fn new() -> (r: Config)
        ensures
            r@.pwd.len() == 0,
            r@.path.len() == 0,
            r@.alt.len() == 0,
            r@.hooks.pre_block.len() == 0,
            r@.hooks.post_block.len() == 0,
            r@.hooks.pre_file.len() == 0,
            r@.hooks.post_file.len() == 0,
            r.wf(),
    {
        let r = Config { pwd: Vec::new(), path: Vec::new(), alt: Vec::new(), hooks: Hooks::empty() };
        proof {
            assert(r@.alt =~~= Seq::<(Seq<u8>, Seq<u8>)>::empty());
        }
        r
    }

    /// Resolves a command through the alternative-command table.
    pub fn substitute(&self, cmd: &Vec<u8>) -> (r: Vec<u8>)
        ensures
            r@ == subst_spec(self@.alt, cmd@),
    {
        let n = self.alt.len();
        let mut i: usize = 0;
        proof {
            assert(self@.alt.skip(0) =~= self@.alt);
        }
        while i < n
            invariant
                0 <= i <= n,
                n == self@.alt.len(),
                n == self.alt@.len(),
                lookup_alt(self@.alt, cmd@) == lookup_alt(self@.alt.skip(i as int), cmd@),
            decreases n - i,
        {
            let ghost rem = self@.alt.skip(i as int);
            proof {
                assert(rem[0] == self@.alt[i as int]);
                assert(rem.skip(1) =~= self@.alt.skip(i + 1));
                assert(self@.alt[i as int] == (self.alt@[i as int].0@, self.alt@[i as int].1@));
            }
            if bytes_eq(&self.alt[i].0, cmd) {
                return copy_bytes(&self.alt[i].1);
            }
            i = i + 1;
        }
        proof {
            assert(self@.alt.skip(n as int) =~= Seq::<(Seq<u8>, Seq<u8>)>::empty());
        }
        copy_bytes(cmd)
    }
}

/// The joined search path: every directory followed by a colon, and the
/// inherited environment path at the tail.
pub open spec fn compose_path_rec(parts: Seq<Seq<u8>>) -> Seq<u8>
    decreases parts.len(),
{
    if parts.len() == 0 {
        Seq::empty()
    } else {
        parts[0] + seq![B_COLON] + compose_path_rec(parts.skip(1))
    }
}

pub open spec fn compose_path_spec(parts: Seq<Seq<u8>>, env_path: Seq<u8>) -> Seq<u8> {
    compose_path_rec(parts) + env_path
}

/// Joins resolved search-path directories, colon-delimited, and appends
/// the environment's own search path at the tail.
pub fn compose_path(parts: &Vec<Vec<u8>>, env_path: &Vec<u8>) -> (r: Vec<u8>)
    ensures
        r@ == compose_path_spec(parts.deep_view(), env_path@),
{
    let ghost all = parts.deep_view();
    let n = parts.len();
    let mut out: Vec<u8> = Vec::new();
    let mut i: usize = 0;
    proof {
        assert(all.skip(0) =~= all);
        assert(out@ + compose_path_rec(all) =~= compose_path_rec(all));
    }
    while i < n
        invariant
            0 <= i <= n,
            n == parts@.len(),
            n == all.len(),
            all == parts.deep_view(),
            out@ + compose_path_rec(all.skip(i as int)) == compose_path_rec(all),
        decreases n - i,
    {
        let ghost rem = all.skip(i as int);
        let ghost pre = out@;
        proof {
            assert(rem[0] == all[i as int]);
            assert(rem.skip(1) =~= all.skip(i + 1));
            assert(parts[i as int]@ =~= all[i as int]);
        }
        push_bytes(&mut out, &parts[i]);
        out.push(B_COLON);
        proof {
            assert(out@ =~= pre + rem[0] + seq![B_COLON]);
            assert((pre + rem[0] + seq![B_COLON]) + compose_path_rec(rem.skip(1)) =~= pre + (rem[0]
                + seq![B_COLON] + compose_path_rec(rem.skip(1))));
        }
        i = i + 1;
    }
    proof {
        assert(all.skip(n as int) =~= Seq::<Seq<u8>>::empty());
        assert(out@ + Seq::<u8>::empty() =~= out@);
    }
    push_bytes(&mut out, env_path);
    out
}

/// The bytes of "set -eu -o pipefail", the guard line of every script.
pub open spec fn script_guard() -> Seq<u8> {
    seq![115u8, 101, 116, 32, 45, 101, 117, 32, 45, 111, 32, 112, 105, 112, 101, 102, 97, 105, 108]
}

/// The bytes of "export PATH=".
pub open spec fn script_export() -> Seq<u8> {
    seq![101u8, 120, 112, 111, 114, 116, 32, 80, 65, 84, 72, 61]
}

/// The bytes of "cd ".
pub open spec fn script_cd() -> Seq<u8> {
    seq![99u8, 100, 32]
}

/// The whole script one invocation hands to the shell interpreter: fail
/// fast, export the search path, enter the working directory, then run
/// the command.
pub open spec fn invocation_spec(pwd: Seq<u8>, path: Seq<u8>, cmd: Seq<u8>) -> Seq<u8> {
    script_guard() + seq![B_NL] + script_export() + path + seq![B_NL] + script_cd() + pwd
        + seq![B_NL] + cmd + seq![B_NL]
}

fn lit_guard() -> (r: Vec<u8>)
    ensures
        r@ == script_guard(),
{
    let mut v: Vec<u8> = Vec::new();
    v.push(115);
    v.push(101);
    v.push(116);
    v.push(32);
    v.push(45);
    v.push(101);
    v.push(117);
    v.push(32);
    v.push(45);
    v.push(111);
    v.push(32);
    v.push(112);
    v.push(105);
    v.push(112);
    v.push(101);
    v.push(102);
    v.push(97);
    v.push(105);
    v.push(108);
    proof {
        assert(v@ =~= script_guard());
    }
    v
}

fn lit_export() -> (r: Vec<u8>)
    ensures
        r@ == script_export(),
{
    let mut v: Vec<u8> = Vec::new();
    v.push(101);
    v.push(120);
    v.push(112);
    v.push(111);
    v.push(114);
    v.push(116);
    v.push(32);
    v.push(80);
    v.push(65);
    v.push(84);
    v.push(72);
    v.push(61);
    proof {
        assert(v@ =~= script_export());
    }
    v
}

fn lit_cd() -> (r: Vec<u8>)
    ensures
        r@ == script_cd(),
{
    let mut v: Vec<u8> = Vec::new();
    v.push(99);
    v.push(100);
    v.push(32);
    proof {
        assert(v@ =~= script_cd());
    }
    v
}

/// Builds the shell script for one invocation: the guard line, the
/// exported search path, the working directory, then the command text.
pub fn build_invocation(config: &Config, command: &Vec<u8>) -> (r: Vec<u8>)
    ensures
        r@ == invocation_spec(config@.pwd, config@.path, command@),
{
    let mut out: Vec<u8> = Vec::new();
    let guard = lit_guard();
    push_bytes(&mut out, &guard);
    proof {
        assert(out@ =~= script_guard());
    }
    out.push(B_NL);
    let export = lit_export();
    push_bytes(&mut out, &export);
    proof {
        assert(out@ =~= script_guard().push(B_NL) + script_export());
        assert(script_guard().push(B_NL) + script_export() =~= script_guard() + seq![B_NL]
            + script_export());
    }
    push_bytes(&mut out, &config.path);
    out.push(B_NL);
    let cd = lit_cd();
    push_bytes(&mut out, &cd);
    push_bytes(&mut out, &config.pwd);
    out.push(B_NL);
    push_bytes(&mut out, command);
    out.push(B_NL);
    proof {
        assert(out@ =~= invocation_spec(config@.pwd, config@.path, command@));
    }
    out
}

/// Byte-for-byte equality of two byte strings.
pub fn bytes_eq(a: &Vec<u8>, b: &Vec<u8>) -> (r: bool)
    ensures
        r == (a@ == b@),
{
    let n = a.len();
    if n != b.len() {
        return false;
    }
    let mut i: usize = 0;
    while i < n
        invariant
            0 <= i <= n,
            n == a@.len(),
            n == b@.len(),
            forall|j: int| 0 <= j < i ==> a@[j] == b@[j],
        decreases n - i,
    {
        if a[i] != b[i] {
            return false;
        }
        i = i + 1;
    }
    proof {
        assert(a@ =~= b@);
    }
    true
}

/// A fresh copy of a byte string.
pub fn copy_bytes(v: &Vec<u8>) -> (r: Vec<u8>)
    ensures
        r@ == v@,
{
    let n = v.len();
    let mut out: Vec<u8> = Vec::new();
    let mut i: usize = 0;
    while i < n
        invariant
            0 <= i <= n,
            n == v@.len(),
            out@ == v@.take(i as int),
        decreases n - i,
    {
        out.push(v[i]);
        proof {
            assert(v@.take(i + 1) =~= v@.take(i as int).push(v@[i as int]));
        }
        i = i + 1;
    }
    proof {
        assert(v@.take(n as int) =~= v@);
    }
    out
}

} // verus!

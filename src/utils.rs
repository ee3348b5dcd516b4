//! Locating the compiler's sysroot from the environment the tool was built in.
use vstd::prelude::*;

verus! {

/// The build-time environment variables that decide the default sysroot.
pub struct BuildEnv {
    pub rustc_stage: Option<String>,
    pub rustup_home: Option<String>,
    pub multirust_home: Option<String>,
    pub rustup_toolchain: Option<String>,
    pub multirust_toolchain: Option<String>,
    pub rust_sysroot: Option<String>,
}

pub open spec fn first_of(a: Option<String>, b: Option<String>) -> Option<String> {
    match a {
        Some(x) => Some(x),
        None => b,
    }
}

/// The environment determines a sysroot, or says that the compiler's own computation applies.
pub open spec fn sysroot_determined(env: BuildEnv) -> bool {
    ||| env.rustc_stage is Some
    ||| (first_of(env.rustup_home, env.multirust_home) is Some && first_of(
        env.rustup_toolchain,
        env.multirust_toolchain,
    ) is Some)
    ||| env.rust_sysroot is Some
}

/// The default sysroot: none when built as part of the compiler; else the rustup toolchain
/// directory; else the explicitly given sysroot.
pub open spec fn sysroot_of(env: BuildEnv) -> Option<Seq<char>> {
    let home = first_of(env.rustup_home, env.multirust_home);
    let toolchain = first_of(env.rustup_toolchain, env.multirust_toolchain);
    if env.rustc_stage is Some {
        None
    } else if home is Some && toolchain is Some {
        Some(home->0@ + "/toolchains/"@ + toolchain->0@)
    } else {
        Some(env.rust_sysroot->0@)
    }
}

fn first_set(a: &Option<String>, b: &Option<String>) -> (r: Option<String>)
    ensures
        r == first_of(*a, *b),
{
    match a {
        Some(x) => Some(x.clone()),
        None => match b {
            Some(y) => Some(y.clone()),
            None => None,
        },
    }
}

/// The "default sysroot" when no `--sysroot` flag is given.
pub fn compile_time_sysroot(env: &BuildEnv) -> (r: Option<String>)
    requires
        sysroot_determined(*env),
    ensures
        match r {
            Some(s) => sysroot_of(*env) == Some(s@),
            None => sysroot_of(*env) is None,
        },
{
    if env.rustc_stage.is_some() {
        return None;
    }
    let home = first_set(&env.rustup_home, &env.multirust_home);
    let toolchain = first_set(&env.rustup_toolchain, &env.multirust_toolchain);
    match (home, toolchain) {
        (Some(home), Some(toolchain)) => {
            let mut s = home;
            s.append("/toolchains/");
            s.append(toolchain.as_str());
            Some(s)
        },
        _ => match &env.rust_sysroot {
            Some(s) => Some(s.clone()),
            None => None,
        },
    }
}

} // verus!

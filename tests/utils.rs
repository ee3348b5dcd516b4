use deadlock_lsp::utils::{compile_time_sysroot, BuildEnv};

fn rustup_build() -> BuildEnv {
    BuildEnv {
        rustc_stage: None,
        rustup_home: Some("/root/.rustup".to_string()),
        multirust_home: None,
        rustup_toolchain: Some("nightly-x86_64-unknown-linux-gnu".to_string()),
        multirust_toolchain: None,
        rust_sysroot: None,
    }
}

#[test]
fn test_compile_time_sysroot() {
    let res = compile_time_sysroot(&rustup_build());
    assert!(res.is_some());
}

#[test]
fn sysroot_is_the_toolchain_directory() {
    let res = compile_time_sysroot(&rustup_build());
    assert_eq!(res.unwrap(), "/root/.rustup/toolchains/nightly-x86_64-unknown-linux-gnu");
}

#[test]
fn sysroot_falls_back_to_multirust_and_explicit_value() {
    let mut env = rustup_build();
    env.rustup_home = None;
    env.multirust_home = Some("/opt/multirust".to_string());
    assert_eq!(
        compile_time_sysroot(&env).unwrap(),
        "/opt/multirust/toolchains/nightly-x86_64-unknown-linux-gnu"
    );
    env.multirust_home = None;
    env.rust_sysroot = Some("/usr/local".to_string());
    assert_eq!(compile_time_sysroot(&env).unwrap(), "/usr/local");
}

#[test]
fn no_sysroot_inside_compiler_build() {
    let mut env = rustup_build();
    env.rustc_stage = Some("2".to_string());
    assert!(compile_time_sysroot(&env).is_none());
}

//! Names of kernels as identifiers, and the plan of tensor cores.

use svod_schedule::kernel_info::KernelInfo;
use svod_schedule::opts::{opt, Opt, OptOps};
use svod_schedule::tiling::fixed_step_reference;

fn function_name(name: &str) -> String {
    KernelInfo::new(name.to_string(), vec![], false).function_name()
}

#[test]
fn function_name_is_a_valid_identifier() {
    for (name, expected) in [
        ("test_kernel", "test_kernel"),
        ("r_g16l16R32u4", "r_g16l16R32u4"),
        ("", ""),
        ("\x1b[0m", ""),
        ("r\x1b[34mg16\x1b[0m", "rg16"),
        ("E_\x1b[31mL?\x1b[0mn6\x1b[K", "E_L3Fn6"),
        ("a\x1b[31mb\x1b[0mc\x1b[K", "abc"),
        ("test-kernel+v2", "test2Dkernel2Bv2"),
        ("\u{e9}\u{65e5}\u{672c}", "E965E5672C"),
        ("\x1b[31", "1B5B31"),
    ] {
        assert_eq!(function_name(name), expected, "{name:?}");
    }
}

#[test]
fn function_name_is_always_ascii_alphanumeric_or_underscore() {
    for name in ["a b", "\u{1F600}", "x\x1b", "\x1b[", "..", "\n\t", "r_\x1b[1;32mg4", "--\x1b[7"] {
        let function = function_name(name);
        assert!(
            function.chars().all(|c| c.is_ascii_alphanumeric() || c == '_'),
            "{name:?} gave {function:?}"
        );
        assert_eq!(function_name(&function), function, "an identifier is kept");
    }
}

#[test]
fn kernel_info_keeps_what_it_is_given() {
    let info = KernelInfo::new("k".to_string(), vec![Opt::upcast(0, 4)], true);
    assert_eq!(info.name, "k");
    assert_eq!(info.applied_opts, [Opt::upcast(0, 4)]);
    assert!(info.dont_use_locals);
}

#[test]
fn the_fixed_step_upcasts_rows_then_columns() {
    let expected = [opt(OptOps::UPCAST, 0, 4), opt(OptOps::UPCAST, 1, 4), opt(OptOps::LOCAL, 1, 4)];
    assert_eq!(fixed_step_reference(8192, 3072, (16, 16), true), expected);
    assert_eq!(fixed_step_reference(8192, 3072, (8, 8), true), expected);
    assert_eq!(fixed_step_reference(8192, 3072, (16, 16), false), expected[..2]);
}

#[test]
fn an_axis_that_is_used_up_renumbers_the_next() {
    assert_eq!(
        fixed_step_reference(64, 320, (16, 16), true),
        [opt(OptOps::UPCAST, 0, 4), opt(OptOps::UPCAST, 0, 5), opt(OptOps::LOCAL, 0, 4)]
    );
    assert_eq!(
        fixed_step_reference(256, 48, (16, 16), true),
        [opt(OptOps::UPCAST, 0, 4), opt(OptOps::UPCAST, 1, 3)]
    );
    assert!(fixed_step_reference(16, 16, (16, 16), true).is_empty());
}

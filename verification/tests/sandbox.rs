//! The seccomp filter's structure, and reading the trust-anchor bundle.

use pelorus::sandbox::roots::{decode_base64, parse_pem_bundle, platform_roots, RootStoreError, PLAUSIBLE_MINIMUM};
use pelorus::sandbox::seccomp::{
    build_filter, denied_syscalls, filter_for, filter_len, no_new_privs_outcome, seccomp_outcome, Arch,
    PolicyError, Rung, AUDIT_ARCH_AARCH64, AUDIT_ARCH_X86_64, EPERM, SECCOMP_DATA_ARCH_OFFSET,
    SECCOMP_DATA_NR_OFFSET, SECCOMP_MODE_FILTER, SECCOMP_RET_ALLOW, SECCOMP_RET_ERRNO, SECCOMP_RET_KILL_PROCESS,
};

/// The jump arithmetic is the part that is easy to get wrong and impossible
/// to notice: a filter with a bad offset still installs, still runs, and
/// protects nothing. So it is checked structurally.
#[test]
fn sandbox_policy_every_denied_syscall_jumps_to_the_deny_instruction() {
    let program = build_filter();
    let deny_index = program.len() - 1;
    let allow_index = program.len() - 2;

    // The comparisons start after the arch check (3) and the nr load (1).
    for (offset, _syscall) in denied_syscalls(Arch::X86_64).iter().enumerate() {
        let index = 4 + offset;
        let instruction = program[index];
        let target = index + 1 + usize::from(instruction.jt);
        assert_eq!(
            target, deny_index,
            "comparison {offset} jumps to {target}, not the deny at {deny_index}"
        );
    }

    assert_eq!(
        program[allow_index].k, SECCOMP_RET_ALLOW,
        "the instruction before the deny must be the allow"
    );
    assert_eq!(
        program[deny_index].k,
        SECCOMP_RET_ERRNO | EPERM,
        "the last instruction must deny with EPERM"
    );
}

/// A filter that does not pin the architecture is bypassable through a
/// second ABI, so the check must be present and kill.
#[test]
fn sandbox_policy_pins_the_architecture_before_matching_numbers() {
    let program = build_filter();
    assert_eq!(
        program[0].k, SECCOMP_DATA_ARCH_OFFSET,
        "the filter must load seccomp_data.arch first"
    );
    assert_eq!(program[1].k, AUDIT_ARCH_X86_64, "it must compare against this arch");
    assert_eq!(
        program[2].k, SECCOMP_RET_KILL_PROCESS,
        "a foreign architecture must be killed, not allowed"
    );
    assert_eq!(
        program[3].k, SECCOMP_DATA_NR_OFFSET,
        "only then may it load the syscall number"
    );
}

#[test]
fn sandbox_policy_denies_the_escape_primitives() {
    let program = build_filter();
    let denied = denied_syscalls(Arch::X86_64);
    let compared: Vec<u32> = program
        .iter()
        .skip(4)
        .take(denied.len())
        .map(|instruction| instruction.k)
        .collect();
    assert_eq!(compared, denied, "every denied number is compared");
}

#[test]
fn the_aarch64_filter_pins_its_own_architecture_and_numbers() {
    let program = filter_for(Arch::Aarch64);
    assert_eq!(program[1].k, AUDIT_ARCH_AARCH64);
    assert_eq!(program[4].k, 117, "ptrace is 117 on aarch64");
    assert_eq!(program.len(), 17 + 6);
    assert_eq!(usize::from(program[4].jt), 17);
    assert_eq!(usize::from(program[20].jt), 1);
}

#[test]
fn the_policy_is_confirmed_by_reading_it_back() {
    assert_eq!(no_new_privs_outcome(0, 1), Ok(()));
    assert_eq!(
        no_new_privs_outcome(-1, 1),
        Err(PolicyError::Failed { rung: Rung::NoNewPrivs, detail: "prctl(PR_SET_NO_NEW_PRIVS) was refused" })
    );
    assert!(matches!(
        no_new_privs_outcome(0, 0),
        Err(PolicyError::Failed { rung: Rung::NoNewPrivs, .. })
    ));
    assert_eq!(seccomp_outcome(0, SECCOMP_MODE_FILTER), Ok(()));
    assert!(matches!(seccomp_outcome(0, 0), Err(PolicyError::Failed { rung: Rung::Seccomp, .. })));
    assert!(matches!(seccomp_outcome(-1, SECCOMP_MODE_FILTER), Err(PolicyError::Failed { rung: Rung::Seccomp, .. })));
    assert_eq!(filter_len(23), Ok(23));
    assert!(filter_len(70_000).is_err());
}

#[test]
fn roots_a_corrupt_bundle_reads_as_empty_rather_than_short() {
    let corrupt = "-----BEGIN CERTIFICATE-----\nnot~valid~base64\n-----END CERTIFICATE-----\n";
    assert!(
        parse_pem_bundle(corrupt).is_empty(),
        "a bundle that cannot be decoded must not yield a shorter trust list"
    );
}

#[test]
fn one_corrupt_certificate_empties_the_whole_bundle() {
    let text = "-----BEGIN CERTIFICATE-----\nMAo=\n-----END CERTIFICATE-----\n\
                -----BEGIN CERTIFICATE-----\nnot~valid~base64\n-----END CERTIFICATE-----\n";
    assert!(parse_pem_bundle(text).is_empty());
    let many = "-----BEGIN CERTIFICATE-----\nMAEC\n-----END CERTIFICATE-----\n".repeat(PLAUSIBLE_MINIMUM);
    let spoilt = format!("{many}-----BEGIN CERTIFICATE-----\n~\n-----END CERTIFICATE-----\n");
    assert!(matches!(
        platform_roots(&vec![Some(spoilt), Some(many)]),
        Ok(anchors) if anchors.len() == PLAUSIBLE_MINIMUM
    ));
}

#[test]
fn base64_decodes_groups_and_stops_at_padding() {
    assert_eq!(decode_base64("TWFu"), Some(b"Man".to_vec()));
    assert_eq!(decode_base64("TWE="), Some(b"Ma".to_vec()));
    assert_eq!(decode_base64("TQ=="), Some(b"M".to_vec()));
    assert_eq!(decode_base64("TW\r\nFu"), Some(b"Man".to_vec()));
    assert_eq!(decode_base64("T"), None, "one character encodes nothing");
    assert_eq!(decode_base64("TW~u"), None);
    assert_eq!(decode_base64("TWFu=~~"), Some(b"Man".to_vec()), "nothing after the padding is read");
}

#[test]
fn a_bundle_yields_its_certificates_in_order() {
    let text = "junk\n-----BEGIN CERTIFICATE-----\nMAEC\n-----END CERTIFICATE-----\n\
                -----BEGIN CERTIFICATE-----\r\n MAMD \r\nBA==\r\n-----END CERTIFICATE-----\r\n";
    let anchors = parse_pem_bundle(text);
    assert_eq!(anchors, vec![vec![0x30, 0x01, 0x02], vec![0x30, 0x03, 0x03, 0x04]]);
}

#[test]
fn the_platform_store_is_the_first_plausible_bundle() {
    let one = "-----BEGIN CERTIFICATE-----\nMAEC\n-----END CERTIFICATE-----\n";
    let many = one.repeat(PLAUSIBLE_MINIMUM);
    assert_eq!(
        platform_roots(&vec![None, Some(many.clone())]).map(|a| a.len()),
        Ok(PLAUSIBLE_MINIMUM)
    );
    assert_eq!(
        platform_roots(&vec![Some(one.to_owned()), Some(many)]),
        Err(RootStoreError::ImplausiblyFew(1)),
        "a short store is refused, not passed over"
    );
    assert_eq!(
        platform_roots(&vec![None, Some(String::new())]),
        Err(RootStoreError::Unavailable("no CA bundle found in the usual locations"))
    );
}


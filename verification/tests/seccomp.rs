use motosan_sandbox::seccomp::{
    compile_filter, network_filter, network_seccomp, proxy_routed_filter, proxy_routed_seccomp,
    target_arch, Arch, Comparison, Condition, Filter, SocketNumbers, Verdict,
};

fn numbers() -> SocketNumbers {
    SocketNumbers {
        socket: libc::SYS_socket,
        socketpair: libc::SYS_socketpair,
        inet: libc::AF_INET as u32,
        inet6: libc::AF_INET6 as u32,
        eperm: libc::EPERM as u32,
    }
}

/// Runs a filter program on a system call, as the kernel would.
fn run(program: &[(u16, u8, u8, u32)], arch: u32, number: u32, family: u64) -> u32 {
    let mut data = [0u8; 64];
    data[0..4].copy_from_slice(&number.to_le_bytes());
    data[4..8].copy_from_slice(&arch.to_le_bytes());
    data[16..24].copy_from_slice(&family.to_le_bytes());
    let mut acc: u32 = 0;
    let mut pc: usize = 0;
    loop {
        let (code, jt, jf, k) = program[pc];
        pc += 1;
        match code {
            0x20 => {
                let at = k as usize;
                acc = u32::from_le_bytes([data[at], data[at + 1], data[at + 2], data[at + 3]]);
            }
            0x15 => pc += if acc == k { jt as usize } else { jf as usize },
            0x05 => pc += k as usize,
            0x06 => return k,
            other => panic!("unexpected instruction {:#x}", other),
        }
    }
}

const X86_64: u32 = 0xC000_003E;
const ALLOW: u32 = 0x7fff_0000;
const REFUSE: u32 = 0x0005_0000 | 1;

fn on_x86_64(n: &SocketNumbers) -> SocketNumbers {
    SocketNumbers {
        socket: 41,
        socketpair: 53,
        ..*n
    }
}

#[test]
fn proxy_routed_seccomp_filter_builds() {
    for arch in ["x86_64", "aarch64"] {
        let program = proxy_routed_seccomp(&numbers(), arch).expect("compile to BPF");
        assert!(!program.is_empty());
    }
}

#[test]
fn a_blocked_network_refuses_the_internet_families() {
    let n = on_x86_64(&numbers());
    let program = network_seccomp(&n, "x86_64").unwrap();
    for call in [41, 53] {
        assert_eq!(run(&program, X86_64, call, 2), REFUSE);
        assert_eq!(run(&program, X86_64, call, 10), REFUSE);
        assert_eq!(run(&program, X86_64, call, 1), ALLOW);
        assert_eq!(run(&program, X86_64, call, 0x1_0000_0002), REFUSE);
    }
    assert_eq!(run(&program, X86_64, 0, 2), ALLOW);
}

#[test]
fn a_proxied_network_refuses_every_other_family() {
    let n = on_x86_64(&numbers());
    let program = proxy_routed_seccomp(&n, "x86_64").unwrap();
    for call in [41, 53] {
        assert_eq!(run(&program, X86_64, call, 2), ALLOW);
        assert_eq!(run(&program, X86_64, call, 10), ALLOW);
        assert_eq!(run(&program, X86_64, call, 1), REFUSE);
        assert_eq!(run(&program, X86_64, call, 16), REFUSE);
    }
    assert_eq!(run(&program, X86_64, 1, 1), ALLOW);
}

#[test]
fn filters_look_at_both_calls_that_make_sockets() {
    let n = numbers();
    let blocked = network_filter(&n);
    assert_eq!(blocked.numbers, vec![libc::SYS_socket, libc::SYS_socketpair]);
    assert_eq!(blocked.rules.len(), 2);
    assert_eq!(blocked.otherwise, Verdict::Allow);
    assert_eq!(blocked.matched, Verdict::Errno(1));
    let routed = proxy_routed_filter(&n);
    assert_eq!(
        routed.rules,
        vec![vec![
            Condition {
                argument: 0,
                comparison: Comparison::NotEqual,
                value: 2
            },
            Condition {
                argument: 0,
                comparison: Comparison::NotEqual,
                value: 10
            }
        ]]
    );
}

#[test]
fn other_processors_are_refused() {
    assert_eq!(target_arch("x86_64"), Ok(Arch::X86_64));
    assert_eq!(target_arch("aarch64"), Ok(Arch::Aarch64));
    assert_eq!(
        network_seccomp(&numbers(), "riscv64"),
        Err("unsupported arch: riscv64".to_string())
    );
    assert_eq!(
        proxy_routed_seccomp(&numbers(), "X86_64"),
        Err("unsupported arch: X86_64".to_string())
    );
}

#[test]
fn a_rule_without_conditions_is_refused() {
    let filter = Filter {
        numbers: vec![41],
        rules: vec![vec![]],
        otherwise: Verdict::Allow,
        matched: Verdict::Errno(1),
    };
    assert_eq!(
        compile_filter(&filter, Arch::X86_64),
        Err("The condition vector of a rule cannot be empty.".to_string())
    );
}

#[test]
fn a_condition_looks_at_its_own_argument() {
    let filter = Filter {
        numbers: vec![41],
        rules: vec![vec![Condition {
            argument: 1,
            comparison: Comparison::Equal,
            value: 0,
        }]],
        otherwise: Verdict::Errno(7),
        matched: Verdict::Allow,
    };
    let program = compile_filter(&filter, Arch::X86_64).unwrap();
    assert_eq!(run(&program, X86_64, 41, 2), ALLOW);
    assert_eq!(run(&program, X86_64, 42, 2), 0x0005_0000 | 7);
}

#[test]
fn a_filter_with_one_verdict_for_all_is_refused() {
    let filter = Filter {
        numbers: vec![41],
        rules: vec![],
        otherwise: Verdict::Allow,
        matched: Verdict::Allow,
    };
    assert_eq!(
        compile_filter(&filter, Arch::X86_64),
        Err("`match_action` and `mismatch_action` are equal.".to_string())
    );
}

#[test]
fn without_rules_every_call_matches() {
    let filter = Filter {
        numbers: vec![41],
        rules: vec![],
        otherwise: Verdict::Allow,
        matched: Verdict::Errno(1),
    };
    let program = compile_filter(&filter, Arch::X86_64).unwrap();
    for family in [0, 2, 10] {
        assert_eq!(run(&program, X86_64, 41, family), REFUSE);
        assert_eq!(run(&program, X86_64, 53, family), ALLOW);
    }
}

//! The system-call filters of the Linux helper. Both look at the address family that a socket is
//! asked for: one refuses the Internet families, so that there is no network; the other refuses
//! every family but those, so that the only way out is the bridge.

use seccompiler::SeccompCmpArgLen::Dword;
use seccompiler::{
    BackendError, BpfProgram, SeccompAction, SeccompCmpOp, SeccompCondition, SeccompFilter,
    SeccompRule,
};
use vstd::prelude::*;

use crate::text;

verus! {

// ---------------------------------------------------------------------------
// Filters
// ---------------------------------------------------------------------------

/// How an argument of a system call is compared.
#[derive(Debug, Clone, Copy, PartialEq, Eq, Structural)]
pub enum Comparison {
    Equal,
    NotEqual,
}

/// A condition on the low 32 bits of an argument of a system call.
#[derive(Debug, Clone, Copy, PartialEq, Eq, Structural)]
pub struct Condition {
    /// Which argument, counted from 0.
    pub argument: u8,
    pub comparison: Comparison,
    pub value: u32,
}

/// The last argument that a system call can have.
pub const LAST_ARGUMENT: u8 = 5;

/// The argument of the calls that make sockets that is the address family.
pub const FAMILY_ARGUMENT: u8 = 0;

/// What becomes of a system call.
#[derive(Debug, Clone, Copy, PartialEq, Eq, Structural)]
pub enum Verdict {
    /// It is made.
    Allow,
    /// It fails with this error.
    Errno(u32),
}

/// A filter. It looks at the system calls with these numbers. Where all conditions of some rule
/// hold of one, or where there are no rules, `matched` becomes of it, and of every other call
/// `otherwise`.
#[derive(Debug, PartialEq, Eq)]
pub struct Filter {
    pub numbers: Vec<i64>,
    pub rules: Vec<Vec<Condition>>,
    pub otherwise: Verdict,
    pub matched: Verdict,
}

impl DeepView for Condition {
    type V = Condition;

    open spec fn deep_view(&self) -> Condition {
        *self
    }
}

/// Whether a condition holds of the low halves of the arguments.
pub open spec fn holds(c: Condition, args: Seq<u32>) -> bool {
    match c.comparison {
        Comparison::Equal => args[c.argument as int] == c.value,
        Comparison::NotEqual => args[c.argument as int] != c.value,
    }
}

/// Whether all conditions of a rule hold of the arguments.
pub open spec fn rule_matches(rule: Seq<Condition>, args: Seq<u32>) -> bool {
    forall|i: int| 0 <= i < rule.len() ==> holds(#[trigger] rule[i], args)
}

/// Whether some rule for a system call matches the arguments. Where there are no rules, all
/// arguments match.
pub open spec fn chain_matches(rules: Seq<Seq<Condition>>, args: Seq<u32>) -> bool {
    rules.len() == 0 || exists|i: int|
        0 <= i < rules.len() && rule_matches(#[trigger] rules[i], args)
}

/// What becomes of a system call, given the low halves of its arguments.
pub open spec fn verdict_on(
    numbers: Seq<i64>,
    rules: Seq<Seq<Condition>>,
    otherwise: Verdict,
    matched: Verdict,
    number: i64,
    args: Seq<u32>,
) -> Verdict {
    if numbers.contains(number) && chain_matches(rules, args) {
        matched
    } else {
        otherwise
    }
}

/// The conditions look at arguments that a system call can have.
pub open spec fn in_reach(rules: Seq<Seq<Condition>>) -> bool {
    forall|i: int, j: int|
        0 <= i < rules.len() && 0 <= j < rules[i].len() ==> (#[trigger] rules[i][j]).argument
            <= LAST_ARGUMENT
}

/// The numbers that a platform gives to the calls, families and errors that the filters are
/// about.
#[derive(Debug, Clone, Copy, PartialEq, Eq, Structural)]
pub struct SocketNumbers {
    /// The system call `socket`.
    pub socket: i64,
    /// The system call `socketpair`.
    pub socketpair: i64,
    /// The address family of IPv4.
    pub inet: u32,
    /// The address family of IPv6.
    pub inet6: u32,
    /// The error "operation not permitted".
    pub eperm: u32,
}

impl SocketNumbers {
    /// The call numbers fit in a filter and differ.
    pub open spec fn valid(self) -> bool {
        &&& 0 <= self.socket <= u32::MAX
        &&& 0 <= self.socketpair <= u32::MAX
        &&& self.socket != self.socketpair
    }
}

/// Whether a family is an Internet one.
pub open spec fn is_internet(n: SocketNumbers, family: u32) -> bool {
    family == n.inet || family == n.inet6
}

/// Whether a system call makes sockets.
pub open spec fn makes_socket(n: SocketNumbers, number: i64) -> bool {
    number == n.socket || number == n.socketpair
}

/// The condition on the address family.
pub open spec fn family_is(comparison: Comparison, family: u32) -> Condition {
    Condition { argument: FAMILY_ARGUMENT, comparison, value: family }
}

/// The rules that match the Internet families: one rule for each.
pub open spec fn internet_rules(n: SocketNumbers) -> Seq<Seq<Condition>> {
    seq![
        seq![family_is(Comparison::Equal, n.inet)],
        seq![family_is(Comparison::Equal, n.inet6)],
    ]
}

/// The rule that matches every family but the Internet ones: both conditions in one rule.
pub open spec fn other_rules(n: SocketNumbers) -> Seq<Seq<Condition>> {
    seq![
        seq![
            family_is(Comparison::NotEqual, n.inet),
            family_is(Comparison::NotEqual, n.inet6),
        ],
    ]
}

/// The numbers of the system calls that make sockets.
pub open spec fn socket_calls(n: SocketNumbers) -> Seq<i64> {
    seq![n.socket, n.socketpair]
}

/// A rule with one condition, on the address family.
fn rule1(comparison: Comparison, value: u32) -> (r: Vec<Condition>)
    ensures
        r.deep_view() == seq![family_is(comparison, value)],
{
    let mut rule: Vec<Condition> = Vec::new();
    rule.push(Condition { argument: FAMILY_ARGUMENT, comparison, value });
    assert(rule.deep_view() =~= seq![family_is(comparison, value)]);
    rule
}

/// The rules that match the Internet families.
fn make_internet_rules(n: &SocketNumbers) -> (r: Vec<Vec<Condition>>)
    ensures
        r.deep_view() == internet_rules(*n),
{
    let mut rules: Vec<Vec<Condition>> = Vec::new();
    rules.push(rule1(Comparison::Equal, n.inet));
    rules.push(rule1(Comparison::Equal, n.inet6));
    assert(rules.deep_view() =~= internet_rules(*n));
    rules
}

/// The rule that matches every other family.
fn make_other_rules(n: &SocketNumbers) -> (r: Vec<Vec<Condition>>)
    ensures
        r.deep_view() == other_rules(*n),
{
    let mut rule: Vec<Condition> = rule1(Comparison::NotEqual, n.inet);
    let ghost before = rule.deep_view();
    rule.push(
        Condition {
            argument: FAMILY_ARGUMENT,
            comparison: Comparison::NotEqual,
            value: n.inet6,
        },
    );
    assert(rule.deep_view() =~= before.push(family_is(Comparison::NotEqual, n.inet6)));
    assert(rule.deep_view() =~= other_rules(*n)[0]);
    let ghost rule_view = rule.deep_view();
    let mut rules: Vec<Vec<Condition>> = Vec::new();
    rules.push(rule);
    assert(rules.deep_view()[0] == rule_view);
    assert(rules.deep_view() =~= other_rules(*n));
    rules
}

/// The numbers of the system calls that make sockets.
fn make_socket_calls(n: &SocketNumbers) -> (r: Vec<i64>)
    ensures
        r@ == socket_calls(*n),
{
    let mut numbers: Vec<i64> = Vec::new();
    numbers.push(n.socket);
    numbers.push(n.socketpair);
    assert(numbers@ =~= socket_calls(*n));
    numbers
}

/// The filter of a blocked network: sockets of the Internet families are refused.
pub fn network_filter(n: &SocketNumbers) -> (r: Filter)
    ensures
        r.numbers@ == socket_calls(*n),
        r.rules.deep_view() == internet_rules(*n),
        r.otherwise == Verdict::Allow,
        r.matched == Verdict::Errno(n.eperm),
{
    Filter {
        numbers: make_socket_calls(n),
        rules: make_internet_rules(n),
        otherwise: Verdict::Allow,
        matched: Verdict::Errno(n.eperm),
    }
}

/// The filter of a proxied network, inside its own network namespace: sockets of any family but
/// the Internet ones are refused, so that the target cannot go past the bridge to the sockets of
/// the host.
pub fn proxy_routed_filter(n: &SocketNumbers) -> (r: Filter)
    ensures
        r.numbers@ == socket_calls(*n),
        r.rules.deep_view() == other_rules(*n),
        r.otherwise == Verdict::Allow,
        r.matched == Verdict::Errno(n.eperm),
{
    Filter {
        numbers: make_socket_calls(n),
        rules: make_other_rules(n),
        otherwise: Verdict::Allow,
        matched: Verdict::Errno(n.eperm),
    }
}

// ---------------------------------------------------------------------------
// Programs
// ---------------------------------------------------------------------------

/// The processors that filters can be compiled for.
#[derive(Debug, Clone, Copy, PartialEq, Eq, Structural)]
pub enum Arch {
    X86_64,
    Aarch64,
}

impl Arch {
    /// The name of the processor.
    pub open spec fn spec_name(self) -> Seq<char> {
        match self {
            Arch::X86_64 => "x86_64"@,
            Arch::Aarch64 => "aarch64"@,
        }
    }

    /// The name of the processor.
    pub fn name(self) -> (r: &'static str)
        ensures
            r@ == self.spec_name(),
    {
        match self {
            Arch::X86_64 => "x86_64",
            Arch::Aarch64 => "aarch64",
        }
    }
}

/// The processor of a name.
pub open spec fn arch_of(name: Seq<char>) -> Option<Arch> {
    if name == "x86_64"@ {
        Some(Arch::X86_64)
    } else if name == "aarch64"@ {
        Some(Arch::Aarch64)
    } else {
        None
    }
}

/// The processor of a name, or a message that it is not supported.
pub fn target_arch(name: &str) -> (r: Result<Arch, String>)
    ensures
        match arch_of(name@) {
            Some(arch) => r == Ok::<Arch, String>(arch),
            None => r matches Err(why) && why@ == "unsupported arch: "@ + name@,
        },
{
    if text::same_text(name, "x86_64") {
        Ok(Arch::X86_64)
    } else if text::same_text(name, "aarch64") {
        Ok(Arch::Aarch64)
    } else {
        Err(text::join2("unsupported arch: ", name))
    }
}

/// The program that `seccompiler` makes of a filter for the processor of a name, or its message
/// where it makes none. An instruction is its code, its two jumps and its operand.
pub uninterp spec fn filter_program(
    numbers: Seq<i64>,
    rules: Seq<Seq<Condition>>,
    otherwise: Verdict,
    matched: Verdict,
    arch: Seq<char>,
) -> Result<Seq<(u16, u8, u8, u32)>, Seq<char>>;

/// A result of `compile_filter` as a mathematical value.
pub open spec fn program_view(r: Result<Vec<(u16, u8, u8, u32)>, String>) -> Result<
    Seq<(u16, u8, u8, u32)>,
    Seq<char>,
> {
    match r {
        Ok(program) => Ok(program@),
        Err(why) => Err(why@),
    }
}

/// A rule of `seccompiler`: a collection of conditions.
#[verifier::external_type_specification]
#[verifier::external_body]
pub struct ExSeccompRule(seccompiler::SeccompRule);

/// Whether every condition that a rule of `seccompiler` holds compares the low half of an
/// argument, and asks whether it equals a value or whether it differs from one.
pub uninterp spec fn on_low_halves(rule: SeccompRule) -> bool;

/// The conditions that such a rule holds.
pub uninterp spec fn rule_conditions(rule: SeccompRule) -> Seq<Condition>;

/// The message of `seccompiler` for a rule without conditions.
pub open spec fn empty_rule() -> Seq<char> {
    "The condition vector of a rule cannot be empty."@
}

/// `seccompiler::SeccompRule::new` makes a rule that holds the given conditions, each a
/// `seccompiler::SeccompCondition` on the low half of its argument, and fails where there are
/// none. A condition on an argument that no system call has is left out by the precondition.
#[verifier::external_body]
fn make_rule(conditions: &Vec<Condition>) -> (r: Result<SeccompRule, String>)
    requires
        forall|i: int|
            0 <= i < conditions@.len() ==> (#[trigger] conditions@[i]).argument <= LAST_ARGUMENT,
    ensures
        r matches Ok(rule) ==> conditions@.len() > 0 && on_low_halves(rule) && rule_conditions(rule)
            == conditions@,
        r matches Err(why) ==> conditions@.len() == 0 && why@ == empty_rule(),
{
    let op = |c: &Condition| match c.comparison {
        Comparison::Equal => SeccompCmpOp::Eq,
        Comparison::NotEqual => SeccompCmpOp::Ne,
    };
    let convert = |c: &Condition| SeccompCondition::new(c.argument, Dword, op(c), c.value.into());
    let conditions = conditions.iter().map(convert).collect::<Result<Vec<_>, _>>();
    conditions.and_then(SeccompRule::new).map_err(|e| e.to_string())
}

/// The conditions of a list of rules.
pub open spec fn rules_conditions(rules: Seq<SeccompRule>) -> Seq<Seq<Condition>> {
    Seq::new(rules.len(), |i: int| rule_conditions(rules[i]))
}

/// A filter that is far from the longest that `seccompiler` makes a program of.
pub open spec fn is_small(numbers: Seq<i64>, rules: Seq<Seq<Condition>>) -> bool {
    &&& numbers.len() <= 2
    &&& rules.len() <= 2
    &&& forall|i: int| 0 <= i < rules.len() ==> (#[trigger] rules[i]).len() <= 2
}

/// `seccompiler::SeccompFilter::new` gives every call the same rules, and a verdict to what they
/// match and another to the rest; a `seccompiler::BpfProgram` is made of that, unless the
/// verdicts are the same, the processor is unknown or the program gets too long. The program, or
/// the message of the error, depends on the arguments alone; what the program does is not
/// described here. A call number that does not fit in 32 bits makes `seccompiler` panic.
#[verifier::external_body]
fn compile(
    numbers: &Vec<i64>,
    rules: &Vec<SeccompRule>,
    otherwise: Verdict,
    matched: Verdict,
    arch: &str,
) -> (r: Result<Vec<(u16, u8, u8, u32)>, String>)
    requires
        forall|i: int| 0 <= i < numbers@.len() ==> 0 <= (#[trigger] numbers@[i]) <= u32::MAX,
        forall|i: int| 0 <= i < rules@.len() ==> on_low_halves(#[trigger] rules@[i]),
    ensures
        program_view(r) == filter_program(
            numbers@,
            rules_conditions(rules@),
            otherwise,
            matched,
            arch@,
        ),
        is_small(numbers@, rules_conditions(rules@)) && otherwise != matched && arch_of(arch@)
            is Some ==> r is Ok,
{
    let action = |v| match v {
        Verdict::Allow => SeccompAction::Allow,
        Verdict::Errno(e) => SeccompAction::Errno(e),
    };
    let program = || -> Result<BpfProgram, BackendError> {
        let calls = numbers.iter().map(|n| (*n, rules.clone())).collect();
        SeccompFilter::new(calls, action(otherwise), action(matched), arch.try_into()?)?.try_into()
    };
    let program = program().map_err(|e| e.to_string())?;
    Ok(program.iter().map(|i| (i.code, i.jt, i.jf, i.k)).collect())
}

/// Whether some rule has no conditions.
pub open spec fn has_empty_rule(rules: Seq<Seq<Condition>>) -> bool {
    exists|i: int| 0 <= i < rules.len() && (#[trigger] rules[i]).len() == 0
}

/// The outcome of compiling a filter: a rule without conditions is refused.
pub open spec fn compiled(
    numbers: Seq<i64>,
    rules: Seq<Seq<Condition>>,
    otherwise: Verdict,
    matched: Verdict,
    arch: Arch,
) -> Result<Seq<(u16, u8, u8, u32)>, Seq<char>> {
    if has_empty_rule(rules) {
        Err(empty_rule())
    } else {
        filter_program(numbers, rules, otherwise, matched, arch.spec_name())
    }
}

/// Compiles a filter for a processor.
pub fn compile_filter(filter: &Filter, arch: Arch) -> (r: Result<Vec<(u16, u8, u8, u32)>, String>)
    requires
        forall|i: int|
            0 <= i < filter.numbers@.len() ==> 0 <= (#[trigger] filter.numbers@[i]) <= u32::MAX,
        in_reach(filter.rules.deep_view()),
    ensures
        program_view(r) == compiled(
            filter.numbers@,
            filter.rules.deep_view(),
            filter.otherwise,
            filter.matched,
            arch,
        ),
        is_small(filter.numbers@, filter.rules.deep_view()) && !has_empty_rule(
            filter.rules.deep_view(),
        ) && filter.otherwise != filter.matched ==> r is Ok,
{
    let ghost wanted = filter.rules.deep_view();
    let mut rules: Vec<SeccompRule> = Vec::new();
    let mut i: usize = 0;
    while i < filter.rules.len()
        invariant
            i <= filter.rules@.len(),
            wanted == filter.rules.deep_view(),
            in_reach(wanted),
            rules@.len() == i,
            forall|k: int|
                0 <= k < i ==> (#[trigger] wanted[k]).len() > 0 && rule_conditions(rules@[k])
                    == wanted[k],
            forall|k: int| 0 <= k < i ==> on_low_halves(#[trigger] rules@[k]),
        decreases filter.rules@.len() - i,
    {
        assert(wanted[i as int] =~= filter.rules@[i as int]@);
        assert forall|j: int| 0 <= j < filter.rules@[i as int]@.len() implies (
        #[trigger] filter.rules@[i as int]@[j]).argument <= LAST_ARGUMENT by {
            assert(wanted[i as int][j].argument <= LAST_ARGUMENT);
        }
        match make_rule(&filter.rules[i]) {
            Ok(rule) => {
                rules.push(rule);
            },
            Err(why) => {
                assert(wanted[i as int].len() == 0);
                return Err(why);
            },
        }
        i = i + 1;
    }
    assert(rules_conditions(rules@) =~= wanted);
    compile(&filter.numbers, &rules, filter.otherwise, filter.matched, arch.name())
}

/// The outcome of compiling a filter on both system calls for a processor by its name.
pub open spec fn program_for(
    n: SocketNumbers,
    rules: Seq<Seq<Condition>>,
    arch_name: Seq<char>,
) -> Result<Seq<(u16, u8, u8, u32)>, Seq<char>> {
    match arch_of(arch_name) {
        Some(arch) => compiled(
            socket_calls(n),
            rules,
            Verdict::Allow,
            Verdict::Errno(n.eperm),
            arch,
        ),
        None => Err("unsupported arch: "@ + arch_name),
    }
}

/// The program of a blocked network, for a processor by its name.
pub fn network_seccomp(n: &SocketNumbers, arch_name: &str) -> (r: Result<
    Vec<(u16, u8, u8, u32)>,
    String,
>)
    requires
        n.valid(),
    ensures
        program_view(r) == program_for(*n, internet_rules(*n), arch_name@),
        r is Ok <==> arch_of(arch_name@) is Some,
{
    match target_arch(arch_name) {
        Ok(arch) => compile_filter(&network_filter(n), arch),
        Err(why) => Err(why),
    }
}

/// The program of a proxied network, for a processor by its name.
pub fn proxy_routed_seccomp(n: &SocketNumbers, arch_name: &str) -> (r: Result<
    Vec<(u16, u8, u8, u32)>,
    String,
>)
    requires
        n.valid(),
    ensures
        program_view(r) == program_for(*n, other_rules(*n), arch_name@),
        r is Ok <==> arch_of(arch_name@) is Some,
{
    match target_arch(arch_name) {
        Ok(arch) => compile_filter(&proxy_routed_filter(n), arch),
        Err(why) => Err(why),
    }
}

// ---------------------------------------------------------------------------
// Laws
// ---------------------------------------------------------------------------

proof fn lemma_socket_calls(n: SocketNumbers, number: i64)
    ensures
        socket_calls(n).contains(number) <==> makes_socket(n, number),
{
    let calls = socket_calls(n);
    assert(calls[0] == n.socket && calls[1] == n.socketpair);
}

/// What becomes of a system call while the network is blocked.
pub open spec fn blocked_verdict(n: SocketNumbers, number: i64, args: Seq<u32>) -> Verdict {
    verdict_on(
        socket_calls(n),
        internet_rules(n),
        Verdict::Allow,
        Verdict::Errno(n.eperm),
        number,
        args,
    )
}

/// What becomes of a system call while the network is proxied.
pub open spec fn routed_verdict(n: SocketNumbers, number: i64, args: Seq<u32>) -> Verdict {
    verdict_on(
        socket_calls(n),
        other_rules(n),
        Verdict::Allow,
        Verdict::Errno(n.eperm),
        number,
        args,
    )
}

/// With the network blocked, exactly the calls are refused that make a socket of an Internet
/// family.
pub proof fn blocked_refuses_internet(n: SocketNumbers, number: i64, args: Seq<u32>)
    ensures
        blocked_verdict(n, number, args) == (if makes_socket(n, number) && is_internet(n, args[0]) {
            Verdict::Errno(n.eperm)
        } else {
            Verdict::Allow
        }),
{
    let rules = internet_rules(n);
    lemma_socket_calls(n, number);
    assert(rules[0][0] == family_is(Comparison::Equal, n.inet));
    assert(rules[1][0] == family_is(Comparison::Equal, n.inet6));
    if chain_matches(rules, args) {
        let i = choose|i: int| 0 <= i < rules.len() && rule_matches(#[trigger] rules[i], args);
        assert(holds(rules[i][0], args));
    }
    if args[0] == n.inet {
        assert(rule_matches(rules[0], args));
    }
    if args[0] == n.inet6 {
        assert(rule_matches(rules[1], args));
    }
}

/// With the network proxied, exactly the calls are refused that make a socket of any other
/// family.
pub proof fn routed_refuses_the_rest(n: SocketNumbers, number: i64, args: Seq<u32>)
    ensures
        routed_verdict(n, number, args) == (if makes_socket(n, number) && !is_internet(n, args[0]) {
            Verdict::Errno(n.eperm)
        } else {
            Verdict::Allow
        }),
{
    let rules = other_rules(n);
    lemma_socket_calls(n, number);
    assert(rules[0][0] == family_is(Comparison::NotEqual, n.inet));
    assert(rules[0][1] == family_is(Comparison::NotEqual, n.inet6));
    if chain_matches(rules, args) {
        let i = choose|i: int| 0 <= i < rules.len() && rule_matches(#[trigger] rules[i], args);
        assert(holds(rules[0][0], args));
        assert(holds(rules[0][1], args));
    }
    if !is_internet(n, args[0]) {
        assert(rule_matches(rules[0], args));
    }
}

/// The two filters divide the sockets between them: of the calls that make one, each is refused
/// by exactly one of the filters; every other system call passes both.
pub proof fn filters_divide_sockets(n: SocketNumbers, number: i64, args: Seq<u32>)
    ensures
        makes_socket(n, number) ==> (blocked_verdict(n, number, args) == Verdict::Allow
            <==> routed_verdict(n, number, args) != Verdict::Allow),
        !makes_socket(n, number) ==> blocked_verdict(n, number, args) == Verdict::Allow
            && routed_verdict(n, number, args) == Verdict::Allow,
{
    blocked_refuses_internet(n, number, args);
    routed_refuses_the_rest(n, number, args);
}

/// With the network blocked, a system call fails exactly if it is `socket` or `socketpair` and its
/// first argument is one of the two Internet families; with the network proxied, exactly if it is
/// one of these calls and its first argument is neither. Every other call is made. A call that
/// fails says that it is not permitted.
pub proof fn socket_calls_are_judged_by_family(n: SocketNumbers, number: i64, args: Seq<u32>)
    ensures
        ({
            let socket = number == n.socket || number == n.socketpair;
            let internet = args[0] == n.inet || args[0] == n.inet6;
            &&& blocked_verdict(n, number, args) == Verdict::Errno(n.eperm) <==> socket && internet
            &&& blocked_verdict(n, number, args) == Verdict::Allow <==> !(socket && internet)
            &&& routed_verdict(n, number, args) == Verdict::Errno(n.eperm) <==> socket && !internet
            &&& routed_verdict(n, number, args) == Verdict::Allow <==> !(socket && !internet)
        }),
{
    blocked_refuses_internet(n, number, args);
    routed_refuses_the_rest(n, number, args);
}

/// A filter is compiled for the processor of the given name, and only the two that are known have
/// one.
pub proof fn processors_have_their_names(name: Seq<char>)
    ensures
        arch_of(name) matches Some(arch) ==> arch.spec_name() == name,
        arch_of(name) is Some <==> name == "x86_64"@ || name == "aarch64"@,
{
}

/// Both programs are compiled from the rules that they are judged by, for both system calls: what
/// a rule matches is not permitted and everything else is allowed.
pub proof fn programs_come_from_their_rules(n: SocketNumbers, arch: Arch)
    ensures
        program_for(n, internet_rules(n), arch.spec_name()) == filter_program(
            seq![n.socket, n.socketpair],
            internet_rules(n),
            Verdict::Allow,
            Verdict::Errno(n.eperm),
            arch.spec_name(),
        ),
        program_for(n, other_rules(n), arch.spec_name()) == filter_program(
            seq![n.socket, n.socketpair],
            other_rules(n),
            Verdict::Allow,
            Verdict::Errno(n.eperm),
            arch.spec_name(),
        ),
{
    reveal_strlit("x86_64");
    reveal_strlit("aarch64");
    assert("x86_64"@.len() != "aarch64"@.len());
    assert(!has_empty_rule(internet_rules(n)));
    assert(!has_empty_rule(other_rules(n)));
}

/// A filter is compiled as it was given, for the processor that was asked for; and one with a rule
/// that has no conditions is refused.
pub proof fn filters_are_compiled_as_given(
    numbers: Seq<i64>,
    rules: Seq<Seq<Condition>>,
    otherwise: Verdict,
    matched: Verdict,
    arch: Arch,
)
    ensures
        ({
            let empty = exists|i: int| 0 <= i < rules.len() && (#[trigger] rules[i]).len() == 0;
            &&& !empty ==> compiled(numbers, rules, otherwise, matched, arch) == filter_program(
                numbers,
                rules,
                otherwise,
                matched,
                arch.spec_name(),
            )
            &&& empty ==> compiled(numbers, rules, otherwise, matched, arch) is Err
        }),
{
}

} // verus!

//! Fibonacci numbers, computed in three ways.

use std::collections::HashMap;
use vstd::prelude::*;

verus! {

/// The Fibonacci numbers: 0, 1, and from there on the sum of the two before.
pub open spec fn fib(n: nat) -> nat
    decreases n,
{
    if n == 0 {
        0
    } else if n == 1 {
        1
    } else {
        fib((n - 1) as nat) + fib((n - 2) as nat)
    }
}

/// The largest index whose Fibonacci number fits in 64 bits.
pub const MAX_INDEX: u32 = 93;

/// The Fibonacci numbers do not decrease.
pub proof fn lemma_fib_monotonic(i: nat, j: nat)
    requires
        i <= j,
    ensures
        fib(i) <= fib(j),
    decreases j,
{
    if i < j {
        lemma_fib_monotonic(i, (j - 1) as nat);
        if j >= 2 {
        }
    }
}

/// The Fibonacci number at `MAX_INDEX`.
pub proof fn lemma_fib_last()
    ensures
        fib(MAX_INDEX as nat) == 12200160415121876738,
{
    assert(fib(0) == 0);
    assert(fib(1) == 1);
    assert(fib(2) == 1);
    assert(fib(3) == 2);
    assert(fib(4) == 3);
    assert(fib(5) == 5);
    assert(fib(6) == 8);
    assert(fib(7) == 13);
    assert(fib(8) == 21);
    assert(fib(9) == 34);
    assert(fib(10) == 55);
    assert(fib(11) == 89);
    assert(fib(12) == 144);
    assert(fib(13) == 233);
    assert(fib(14) == 377);
    assert(fib(15) == 610);
    assert(fib(16) == 987);
    assert(fib(17) == 1597);
    assert(fib(18) == 2584);
    assert(fib(19) == 4181);
    assert(fib(20) == 6765);
    assert(fib(21) == 10946);
    assert(fib(22) == 17711);
    assert(fib(23) == 28657);
    assert(fib(24) == 46368);
    assert(fib(25) == 75025);
    assert(fib(26) == 121393);
    assert(fib(27) == 196418);
    assert(fib(28) == 317811);
    assert(fib(29) == 514229);
    assert(fib(30) == 832040);
    assert(fib(31) == 1346269);
    assert(fib(32) == 2178309);
    assert(fib(33) == 3524578);
    assert(fib(34) == 5702887);
    assert(fib(35) == 9227465);
    assert(fib(36) == 14930352);
    assert(fib(37) == 24157817);
    assert(fib(38) == 39088169);
    assert(fib(39) == 63245986);
    assert(fib(40) == 102334155);
    assert(fib(41) == 165580141);
    assert(fib(42) == 267914296);
    assert(fib(43) == 433494437);
    assert(fib(44) == 701408733);
    assert(fib(45) == 1134903170);
    assert(fib(46) == 1836311903);
    assert(fib(47) == 2971215073);
    assert(fib(48) == 4807526976);
    assert(fib(49) == 7778742049);
    assert(fib(50) == 12586269025);
    assert(fib(51) == 20365011074);
    assert(fib(52) == 32951280099);
    assert(fib(53) == 53316291173);
    assert(fib(54) == 86267571272);
    assert(fib(55) == 139583862445);
    assert(fib(56) == 225851433717);
    assert(fib(57) == 365435296162);
    assert(fib(58) == 591286729879);
    assert(fib(59) == 956722026041);
    assert(fib(60) == 1548008755920);
    assert(fib(61) == 2504730781961);
    assert(fib(62) == 4052739537881);
    assert(fib(63) == 6557470319842);
    assert(fib(64) == 10610209857723);
    assert(fib(65) == 17167680177565);
    assert(fib(66) == 27777890035288);
    assert(fib(67) == 44945570212853);
    assert(fib(68) == 72723460248141);
    assert(fib(69) == 117669030460994);
    assert(fib(70) == 190392490709135);
    assert(fib(71) == 308061521170129);
    assert(fib(72) == 498454011879264);
    assert(fib(73) == 806515533049393);
    assert(fib(74) == 1304969544928657);
    assert(fib(75) == 2111485077978050);
    assert(fib(76) == 3416454622906707);
    assert(fib(77) == 5527939700884757);
    assert(fib(78) == 8944394323791464);
    assert(fib(79) == 14472334024676221);
    assert(fib(80) == 23416728348467685);
    assert(fib(81) == 37889062373143906);
    assert(fib(82) == 61305790721611591);
    assert(fib(83) == 99194853094755497);
    assert(fib(84) == 160500643816367088);
    assert(fib(85) == 259695496911122585);
    assert(fib(86) == 420196140727489673);
    assert(fib(87) == 679891637638612258);
    assert(fib(88) == 1100087778366101931);
    assert(fib(89) == 1779979416004714189);
    assert(fib(90) == 2880067194370816120);
    assert(fib(91) == 4660046610375530309);
    assert(fib(92) == 7540113804746346429);
    assert(fib(93) == 12200160415121876738);
}

/// Up to `MAX_INDEX` the Fibonacci numbers fit in 64 bits.
pub proof fn lemma_fib_fits(n: nat)
    requires
        n <= MAX_INDEX,
    ensures
        fib(n) <= u64::MAX,
{
    lemma_fib_last();
    lemma_fib_monotonic(n, MAX_INDEX as nat);
}

/// The `n`-th Fibonacci number, by the recurrence.
pub fn fibonacci_recursive(n: u32) -> (r: u64)
    requires
        n <= MAX_INDEX,
    ensures
        r == fib(n as nat),
    decreases n,
{
    if n == 0 {
        0
    } else if n == 1 {
        1
    } else {
        proof {
            lemma_fib_fits(n as nat);
        }
        fibonacci_recursive(n - 1) + fibonacci_recursive(n - 2)
    }
}

/// The `n`-th Fibonacci number, by running the recurrence upwards.
pub fn fibonacci_iterative(n: u32) -> (r: u64)
    requires
        n <= MAX_INDEX,
    ensures
        r == fib(n as nat),
{
    if n == 0 {
        0
    } else if n == 1 {
        1
    } else {
        let mut a: u64 = 0;
        let mut b: u64 = 1;
        let mut i: u32 = 1;
        while i < n
            invariant
                1 <= i <= n <= MAX_INDEX,
                a == fib((i - 1) as nat),
                b == fib(i as nat),
            decreases n - i,
        {
            proof {
                lemma_fib_fits((i + 1) as nat);
            }
            let temp: u64 = a + b;
            a = b;
            b = temp;
            i += 1;
        }
        b
    }
}

/// Whether every entry of the table holds the Fibonacci number of its key.
pub open spec fn table_of_fib(memo: Map<u32, u64>) -> bool {
    forall|k: u32| memo.dom().contains(k) ==> #[trigger] memo[k] == fib(k as nat)
}

/// The `n`-th Fibonacci number, taken from the table or entered in it.
fn fib_memo(n: u32, memo: &mut HashMap<u32, u64>) -> (r: u64)
    requires
        n <= MAX_INDEX,
        table_of_fib(old(memo)@),
    ensures
        r == fib(n as nat),
        table_of_fib(final(memo)@),
    decreases n,
{
    broadcast use vstd::std_specs::hash::group_hash_axioms;

    if let Some(result) = memo.get(&n) {
        return *result;
    }
    let result: u64 = if n == 0 {
        0
    } else if n == 1 {
        1
    } else {
        proof {
            lemma_fib_fits(n as nat);
        }
        let before: u64 = fib_memo(n - 1, memo);
        let two_before: u64 = fib_memo(n - 2, memo);
        before + two_before
    };
    memo.insert(n, result);
    result
}

/// The `n`-th Fibonacci number, by the recurrence with a table of the
/// numbers already computed.
pub fn fibonacci_memoized(n: u32) -> (r: u64)
    requires
        n <= MAX_INDEX,
    ensures
        r == fib(n as nat),
{
    let mut memo: HashMap<u32, u64> = HashMap::new();
    fib_memo(n, &mut memo)
}

} // verus!

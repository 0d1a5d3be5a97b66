//! Temperature conversions and Fibonacci numbers.

use vstd::prelude::*;

verus! {

/// Rust's `/` on signed integers truncates toward zero, while `/` in
/// specifications is Euclidean; this spec function expresses the
/// truncating division that the executable code performs.
pub open spec fn div_trunc(a: int, b: int) -> int
    recommends
        b > 0,
{
    if a >= 0 {
        a / b
    } else {
        -((-a) / b)
    }
}

/// Converts degrees Celsius to degrees Fahrenheit, rounding toward zero.
pub fn celsius2farnheit(celsius: i32) -> (r: i32)
    requires
        -238609294 <= celsius <= 238609294,
    ensures
        r == div_trunc(celsius * 9, 5) + 32,
{
    (celsius * 9 / 5) + 32
}

/// Converts degrees Fahrenheit to degrees Celsius, rounding toward zero.
pub fn farnheit2celsius(farnheit: i32) -> (r: i32)
    requires
        -429496697 <= farnheit <= 429496761,
    ensures
        r == div_trunc((farnheit - 32) * 5, 9),
{
    (farnheit - 32) * 5 / 9
}

/// The Fibonacci sequence: 0, 1, 1, 2, 3, 5, ...
pub open spec fn fib(n: nat) -> nat
    decreases n,
{
    if n == 0 {
        0
    } else if n == 1 {
        1
    } else {
        fib((n - 2) as nat) + fib((n - 1) as nat)
    }
}

/// The sequence is monotone, so every term up to `fib(93)` fits in a `u64`.
proof fn lemma_fib_is_monotonic(i: nat, j: nat)
    requires
        i <= j,
    ensures
        fib(i) <= fib(j),
    decreases j - i,
{
    if i < 2 && j < 2 {
    } else if i == j {
    } else if i == j - 1 {
        reveal_with_fuel(fib, 2);
        lemma_fib_is_monotonic(i, (j - 1) as nat);
    } else {
        lemma_fib_is_monotonic(i, (j - 1) as nat);
        lemma_fib_is_monotonic(i, (j - 2) as nat);
    }
}

proof fn lemma_fib93_fits_u64(n: nat)
    requires
        n <= 93,
    ensures
        fib(n) <= 12200160415121876738,
{
    reveal_with_fuel(fib, 2);
    assert(fib(2) == 1);
    assert(fib(3) == 2);
    assert(fib(4) == 3);
    assert(fib(5) == 5);
    assert(fib(6) == 8);
    assert(fib(7) == 13);
    assert(fib(8) == 21);
    assert(fib(9) == 34);
    assert(fib(10) == 55);
    assert(fib(11) == 89);
    assert(fib(12) == 144);
    assert(fib(13) == 233);
    assert(fib(14) == 377);
    assert(fib(15) == 610);
    assert(fib(16) == 987);
    assert(fib(17) == 1597);
    assert(fib(18) == 2584);
    assert(fib(19) == 4181);
    assert(fib(20) == 6765);
    assert(fib(21) == 10946);
    assert(fib(22) == 17711);
    assert(fib(23) == 28657);
    assert(fib(24) == 46368);
    assert(fib(25) == 75025);
    assert(fib(26) == 121393);
    assert(fib(27) == 196418);
    assert(fib(28) == 317811);
    assert(fib(29) == 514229);
    assert(fib(30) == 832040);
    assert(fib(31) == 1346269);
    assert(fib(32) == 2178309);
    assert(fib(33) == 3524578);
    assert(fib(34) == 5702887);
    assert(fib(35) == 9227465);
    assert(fib(36) == 14930352);
    assert(fib(37) == 24157817);
    assert(fib(38) == 39088169);
    assert(fib(39) == 63245986);
    assert(fib(40) == 102334155);
    assert(fib(41) == 165580141);
    assert(fib(42) == 267914296);
    assert(fib(43) == 433494437);
    assert(fib(44) == 701408733);
    assert(fib(45) == 1134903170);
    assert(fib(46) == 1836311903);
    assert(fib(47) == 2971215073);
    assert(fib(48) == 4807526976);
    assert(fib(49) == 7778742049);
    assert(fib(50) == 12586269025);
    assert(fib(51) == 20365011074);
    assert(fib(52) == 32951280099);
    assert(fib(53) == 53316291173);
    assert(fib(54) == 86267571272);
    assert(fib(55) == 139583862445);
    assert(fib(56) == 225851433717);
    assert(fib(57) == 365435296162);
    assert(fib(58) == 591286729879);
    assert(fib(59) == 956722026041);
    assert(fib(60) == 1548008755920);
    assert(fib(61) == 2504730781961);
    assert(fib(62) == 4052739537881);
    assert(fib(63) == 6557470319842);
    assert(fib(64) == 10610209857723);
    assert(fib(65) == 17167680177565);
    assert(fib(66) == 27777890035288);
    assert(fib(67) == 44945570212853);
    assert(fib(68) == 72723460248141);
    assert(fib(69) == 117669030460994);
    assert(fib(70) == 190392490709135);
    assert(fib(71) == 308061521170129);
    assert(fib(72) == 498454011879264);
    assert(fib(73) == 806515533049393);
    assert(fib(74) == 1304969544928657);
    assert(fib(75) == 2111485077978050);
    assert(fib(76) == 3416454622906707);
    assert(fib(77) == 5527939700884757);
    assert(fib(78) == 8944394323791464);
    assert(fib(79) == 14472334024676221);
    assert(fib(80) == 23416728348467685);
    assert(fib(81) == 37889062373143906);
    assert(fib(82) == 61305790721611591);
    assert(fib(83) == 99194853094755497);
    assert(fib(84) == 160500643816367088);
    assert(fib(85) == 259695496911122585);
    assert(fib(86) == 420196140727489673);
    assert(fib(87) == 679891637638612258);
    assert(fib(88) == 1100087778366101931);
    assert(fib(89) == 1779979416004714189);
    assert(fib(90) == 2880067194370816120);
    assert(fib(91) == 4660046610375530309);
    assert(fib(92) == 7540113804746346429);
    assert(fib(93) == 12200160415121876738);
    lemma_fib_is_monotonic(n, 93);
}

/// Computes `fib(n)` iteratively.
pub fn fibonacci_loop(n: u32) -> (r: u64)
    requires
        n <= 93,
    ensures
        r == fib(n as nat),
{
    if n == 0 {
        return 0;
    }
    if n == 1 {
        return 1;
    }
    let mut a: u64 = 0;
    let mut b: u64 = 1;
    let mut c: u64 = 0;
    let mut i: u32 = 2;
    while i <= n
        invariant
            2 <= i <= n + 1,
            n <= 93,
            a == fib((i - 2) as nat),
            b == fib((i - 1) as nat),
            i > 2 ==> c == fib((i - 1) as nat),
        decreases n + 1 - i,
    {
        proof {
            lemma_fib93_fits_u64(i as nat);
        }
        c = a + b;
        a = b;
        b = c;
        i = i + 1;
    }
    c
}

/// Computes `fib(n)` by direct recursion.
pub fn fibonacci_rec(n: u32) -> (r: u64)
    requires
        n <= 93,
    ensures
        r == fib(n as nat),
    decreases n,
{
    match n {
        0 => 0,
        1 => 1,
        _ => {
            proof {
                lemma_fib93_fits_u64(n as nat);
            }
            fibonacci_rec(n - 1) + fibonacci_rec(n - 2)
        },
    }
}

} // verus!

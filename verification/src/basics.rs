use vstd::prelude::*;
use vstd::std_specs::ops::AddSpec;

verus! {

/// Computes `y * (x + z) + w` for `x = 100`, `y = 20`, `z = 5`, `w = 8`.
pub fn let_example() -> (r: u32)
    ensures
        r == 2108,
{
    let x: u32 = 100;
    let mut y: u32 = 20;
    let z: u32 = 5;
    let w: u32;
    y *= x + z;
    w = 8;
    y + w
}

/// The sum of two numbers; the sum must fit in a `u32`.
pub fn add(a: u32, b: u32) -> (r: u32)
    requires
        a + b <= u32::MAX,
    ensures
        r == a + b,
{
    a + b
}

/// Whether `n` is even.
pub fn is_even(n: u32) -> (r: bool)
    ensures
        r == (n % 2 == 0),
{
    if n % 2 == 0 {
        true
    } else {
        false
    }
}

/// The predecessor of `v`, which `0` does not have.
pub fn pred(v: u32) -> (r: Option<u32>)
    ensures
        v == 0 ==> r.is_none(),
        v > 0 ==> r == Some((v - 1) as u32),
{
    if v == 0 {
        None
    } else {
        Some(v - 1)
    }
}

} // verus!

verus! {

/// Replaces `x` by `x * (x * y)`.
pub fn mul(x: &mut u64, y: &u64)
    requires
        *old(x) * *y <= u64::MAX,
        *old(x) * (*old(x) * *y) <= u64::MAX,
    ensures
        *final(x) == *old(x) * (*old(x) * *y),
{
    *x *= *x * *y;
}

/// `s` starts at `x` and each of its elements after the first is what `f` gives
/// back for the one before it.
pub open spec fn is_orbit<F: Fn(u64) -> u64>(f: F, x: u64, s: Seq<u64>) -> bool {
    &&& s.len() >= 1
    &&& s[0] == x
    &&& forall|i: int| 0 <= i < s.len() - 1 ==> call_ensures(f, (#[trigger] s[i],), s[i + 1])
}

/// Applies `f` to `x` `n` times over.
pub fn app_n<F: Fn(u64) -> u64>(f: F, n: u64, x: u64) -> (r: u64)
    requires
        forall|s: Seq<u64>| is_orbit(f, x, s) && s.len() <= n ==> call_requires(f, (s.last(),)),
    ensures
        exists|s: Seq<u64>| is_orbit(f, x, s) && s.len() == n + 1 && s.last() == r,
{
    let mut k = n;
    let mut x_cur = x;
    let ghost mut s: Seq<u64> = seq![x];
    loop
        invariant
            forall|t: Seq<u64>| is_orbit(f, x, t) && t.len() <= n ==> call_requires(f, (t.last(),)),
            is_orbit(f, x, s),
            s.len() + k == n + 1,
            s.last() == x_cur,
        decreases k,
    {
        if k == 0 {
            return x_cur;
        }
        let y = f(x_cur);
        proof {
            let t = s.push(y);
            assert forall|i: int| 0 <= i < t.len() - 1 implies call_ensures(
                f,
                (#[trigger] t[i],),
                t[i + 1],
            ) by {
                if i < s.len() - 1 {
                    assert(t[i] == s[i] && t[i + 1] == s[i + 1]);
                }
            }
            s = t;
        }
        x_cur = y;
        k -= 1;
    }
}

/// Twice `x`.
pub fn mul2(x: u64) -> (r: u64)
    requires
        2 * x <= u64::MAX,
    ensures
        r == 2 * x,
{
    x * 2
}

/// The function that multiplies its argument by `x`.
pub fn mul_x(x: u64) -> (f: impl Fn(u64) -> u64)
    ensures
        forall|y: u64| x * y <= u64::MAX ==> call_requires(f, (y,)),
        forall|y: u64, r: u64| call_ensures(f, (y,), r) ==> r == x * y,
{
    move |y: u64| -> (r: u64)
        requires
            x * y <= u64::MAX,
        ensures
            r == x * y,
        { x * y }
}

pub struct Apple {}

pub struct Gold {}

pub struct FullStomach {}

/// Trades an apple for gold; the apple is gone.
pub fn get_gold(a: Apple) -> (g: Gold)
    ensures
        g == (Gold {}),
{
    Gold {}
}

/// Eats an apple; the apple is gone.
pub fn get_full_stomach(a: Apple) -> (s: FullStomach)
    ensures
        s == (FullStomach {}),
{
    FullStomach {}
}

/// Trades an apple for gold; eating the same apple afterwards would not compile.
pub fn my_func4() {
    let a = Apple {};
    let _g = get_gold(a);
}

pub struct Foo {
    pub val: u32,
}

/// The sum of the values of two borrowed `Foo`s.
pub fn lifetime_add(x: &Foo, y: &Foo) -> (r: u32)
    requires
        x.val + y.val <= u32::MAX,
    ensures
        r == x.val + y.val,
{
    x.val + y.val
}

/// The sum of the values of `x` and `y`, handing both back.
pub fn add_val(x: Foo, y: Foo) -> (r: (u32, Foo, Foo))
    requires
        x.val + y.val <= u32::MAX,
    ensures
        r.0 == x.val + y.val,
        r.1 == x,
        r.2 == y,
{
    (x.val + y.val, x, y)
}

/// The product of the values of `x` and `y`, handing both back.
pub fn mul_val(x: Foo, y: Foo) -> (r: (u32, Foo, Foo))
    requires
        x.val * y.val <= u32::MAX,
    ensures
        r.0 == x.val * y.val,
        r.1 == x,
        r.2 == y,
{
    (x.val * y.val, x, y)
}

/// `a + a + a` for any type that can be added.
pub fn add_3times<T>(a: T) -> (r: T) where T: core::ops::Add<Output = T> + Copy
    requires
        a.add_req(a),
        forall|b: T| (T::obeys_add_spec() ==> b == a.add_spec(a)) ==> #[trigger] b.add_req(a),
    ensures
        T::obeys_add_spec() ==> r == a.add_spec(a).add_spec(a),
{
    a + a + a
}

} // verus!

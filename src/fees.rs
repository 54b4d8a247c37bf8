//! What joining and buying cost, and how a join cost is shared out.
use vstd::prelude::*;

use crate::types::{AllProps, Audio, AudioCost, Balance, PropsCost};

verus! {

/// `p` percent of `amount`, rounded down.
pub open spec fn percent_of(amount: int, p: int) -> int {
    amount * p / 100
}

pub fn percent(amount: Balance, p: u8) -> (r: Balance)
    requires
        p <= 100,
    ensures
        r == percent_of(amount as int, p as int),
{
    let q = amount / 100;
    let rem = amount % 100;
    let p = p as u128;
    proof {
        assert(q * 100 + rem == amount);
        assert(q * p <= amount) by (nonlinear_arith)
            requires
                q * 100 + rem == amount,
                p <= 100,
                rem >= 0,
        ;
        assert(amount * p / 100 == q * p + rem * p / 100) by (nonlinear_arith)
            requires
                q * 100 + rem == amount,
                0 <= rem < 100,
                0 <= p <= 100,
        ;
        assert(rem * p <= 10000) by (nonlinear_arith)
            requires
                0 <= rem < 100,
                0 <= p <= 100,
        ;
        assert(q * p + rem * p / 100 <= amount) by (nonlinear_arith)
            requires
                q * 100 + rem == amount,
                0 <= rem < 100,
                0 <= p <= 100,
        ;
    }
    q * p + rem * p / 100
}

/// How a join cost is shared out: the manager's part paid at once, the
/// manager's part held in the room, the room's part, and the treasury's part.
/// The first two are 5 percent each and the third 50, rounded down; the
/// treasury takes the rest, about 40 percent, so that the parts add up to the
/// cost.
pub open spec fn join_split(cost: int) -> (int, int, int, int) {
    let now = percent_of(cost, 5);
    let later = percent_of(cost, 5);
    let room = percent_of(cost, 50);
    (now, later, room, cost - now - later - room)
}

pub fn pay_for_split(join_cost: Balance) -> (r: (Balance, Balance, Balance, Balance))
    ensures
        (r.0 as int, r.1 as int, r.2 as int, r.3 as int) == join_split(join_cost as int),
        r.0 + r.1 + r.2 + r.3 == join_cost,
{
    let manager_now = percent(join_cost, 5);
    let manager_later = percent(join_cost, 5);
    let room_later = percent(join_cost, 50);
    proof {
        assert(join_cost * 5 / 100 + join_cost * 5 / 100 + join_cost * 50 / 100 <= join_cost)
            by (nonlinear_arith)
            requires
                join_cost >= 0,
        ;
    }
    let treasury = join_cost - manager_now - manager_later - room_later;
    (manager_now, manager_later, room_later, treasury)
}

/// The price of a purchase of props.
pub open spec fn props_price(price: PropsCost, props: AllProps) -> int {
    price.picture * props.picture + price.text * props.text + price.video * props.video
}

/// The price of a purchase of audio credits.
pub open spec fn audio_price(price: AudioCost, audio: Audio) -> int {
    price.ten_seconds * audio.ten_seconds + price.thirty_seconds * audio.thirty_seconds
        + price.minutes * audio.minutes
}

/// `a * x + b * y + c * z`, or `None` where it exceeds `u128`.
fn price_of_three(a: u128, x: u32, b: u128, y: u32, c: u128, z: u32) -> (r: Option<u128>)
    ensures
        a * x + b * y + c * z <= u128::MAX ==> r == Some((a * x + b * y + c * z) as u128),
        a * x + b * y + c * z > u128::MAX ==> r.is_none(),
{
    proof {
        assert(a * x >= 0 && b * y >= 0 && c * z >= 0) by (nonlinear_arith);
    }
    let first = match a.checked_mul(x as u128) {
        Some(v) => v,
        None => return None,
    };
    let second = match b.checked_mul(y as u128) {
        Some(v) => v,
        None => return None,
    };
    let third = match c.checked_mul(z as u128) {
        Some(v) => v,
        None => return None,
    };
    let s = match first.checked_add(second) {
        Some(v) => v,
        None => return None,
    };
    s.checked_add(third)
}

pub fn props_cost(price: &PropsCost, props: &AllProps) -> (r: Option<Balance>)
    ensures
        props_price(*price, *props) <= u128::MAX ==> r == Some(
            props_price(*price, *props) as u128,
        ),
        props_price(*price, *props) > u128::MAX ==> r.is_none(),
{
    price_of_three(price.picture, props.picture, price.text, props.text, price.video, props.video)
}

pub fn audio_cost(price: &AudioCost, audio: &Audio) -> (r: Option<Balance>)
    ensures
        audio_price(*price, *audio) <= u128::MAX ==> r == Some(
            audio_price(*price, *audio) as u128,
        ),
        audio_price(*price, *audio) > u128::MAX ==> r.is_none(),
{
    price_of_three(
        price.ten_seconds,
        audio.ten_seconds,
        price.thirty_seconds,
        audio.thirty_seconds,
        price.minutes,
        audio.minutes,
    )
}

} // verus!

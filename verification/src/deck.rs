//! Deck summarization and valuation: aggregates each card stack's
//! resolved price, weighted by its count, into three running totals,
//! and tallies how many copies were and were not priced.
//!
//! All money is in integer cents.  Totals saturate at `u64::MAX`; for
//! any sum that fits, the totals are exact.

use vstd::prelude::*;
use crate::pricing::ValueBucket;
use crate::pricing::value_bucket;
use crate::pricing::value_bucket_spec;

verus! {

/// The three price tiers a resolved record offers, in cents.  An absent
/// tier contributes nothing; it does not block the other tiers.
#[derive(Clone, Copy)]
pub struct PriceTiers {
    pub market_cents: Option<u64>,
    pub direct_cents: Option<u64>,
    pub low_cents: Option<u64>,
}

/// One card stack of a deck with the outcome of its price resolution:
/// `None` means the stack is unpriced.
pub struct CardLine {
    pub count: u32,
    pub price: Option<PriceTiers>,
}

/// A deck's aggregate valuation, recomputable and replaced wholesale.
pub struct DeckValue {
    pub market_total: u64,
    pub direct_total: u64,
    pub low_total: u64,
    pub cards_with_pricing: u64,
    pub cards_without_pricing: u64,
}

/// What one stack contributes to the market total.
pub open spec fn line_market_spec(l: CardLine) -> int {
    match l.price {
        Some(p) => match p.market_cents {
            Some(c) => c * l.count,
            None => 0,
        },
        None => 0,
    }
}

/// What one stack contributes to the direct-low total.
pub open spec fn line_direct_spec(l: CardLine) -> int {
    match l.price {
        Some(p) => match p.direct_cents {
            Some(c) => c * l.count,
            None => 0,
        },
        None => 0,
    }
}

/// What one stack contributes to the low total.
pub open spec fn line_low_spec(l: CardLine) -> int {
    match l.price {
        Some(p) => match p.low_cents {
            Some(c) => c * l.count,
            None => 0,
        },
        None => 0,
    }
}

pub open spec fn market_sum_spec(s: Seq<CardLine>) -> int
    decreases s.len(),
{
    if s.len() == 0 {
        0
    } else {
        market_sum_spec(s.drop_last()) + line_market_spec(s.last())
    }
}

pub open spec fn direct_sum_spec(s: Seq<CardLine>) -> int
    decreases s.len(),
{
    if s.len() == 0 {
        0
    } else {
        direct_sum_spec(s.drop_last()) + line_direct_spec(s.last())
    }
}

pub open spec fn low_sum_spec(s: Seq<CardLine>) -> int
    decreases s.len(),
{
    if s.len() == 0 {
        0
    } else {
        low_sum_spec(s.drop_last()) + line_low_spec(s.last())
    }
}

/// Count-weighted tally of priced copies.
pub open spec fn priced_count_spec(s: Seq<CardLine>) -> int
    decreases s.len(),
{
    if s.len() == 0 {
        0
    } else {
        priced_count_spec(s.drop_last()) + (if s.last().price is Some {
            s.last().count as int
        } else {
            0
        })
    }
}

/// Count-weighted tally of unpriced copies.
pub open spec fn unpriced_count_spec(s: Seq<CardLine>) -> int
    decreases s.len(),
{
    if s.len() == 0 {
        0
    } else {
        unpriced_count_spec(s.drop_last()) + (if s.last().price is None {
            s.last().count as int
        } else {
            0
        })
    }
}

/// A mathematical value clamped into a `u64`.
pub open spec fn sat_spec(v: int) -> int {
    if v <= u64::MAX {
        v
    } else {
        u64::MAX as int
    }
}

proof fn lemma_sums_nonneg(s: Seq<CardLine>)
    ensures
        market_sum_spec(s) >= 0,
        direct_sum_spec(s) >= 0,
        low_sum_spec(s) >= 0,
        priced_count_spec(s) >= 0,
        unpriced_count_spec(s) >= 0,
    decreases s.len(),
{
    if s.len() == 0 {
    } else {
        lemma_sums_nonneg(s.drop_last());
    }
}

fn sat_mul(a: u64, b: u64) -> (r: u64)
    ensures
        r as int == sat_spec((a as int) * (b as int)),
{
    match a.checked_mul(b) {
        Some(v) => v,
        None => u64::MAX,
    }
}

/// The valuation of a deck's card stacks: for each stack that resolved
/// to a price, each present tier contributes its price times the
/// stack's count; priced and unpriced copies are tallied count-weighted.
/// Every total is exact whenever the mathematical sum fits in a `u64`,
/// and saturates at `u64::MAX` otherwise.
pub fn deck_value(lines: &Vec<CardLine>) -> (r: DeckValue)
    ensures
        r.market_total as int == sat_spec(market_sum_spec(lines@)),
        r.direct_total as int == sat_spec(direct_sum_spec(lines@)),
        r.low_total as int == sat_spec(low_sum_spec(lines@)),
        r.cards_with_pricing as int == sat_spec(priced_count_spec(lines@)),
        r.cards_without_pricing as int == sat_spec(unpriced_count_spec(lines@)),
{
    let mut market: u64 = 0;
    let mut direct: u64 = 0;
    let mut low: u64 = 0;
    let mut with_p: u64 = 0;
    let mut without_p: u64 = 0;
    let mut i: usize = 0;
    proof {
        assert(lines@.take(0) =~= Seq::<CardLine>::empty());
    }
    while i < lines.len()
        invariant
            0 <= i <= lines@.len(),
            market as int == sat_spec(market_sum_spec(lines@.take(i as int))),
            direct as int == sat_spec(direct_sum_spec(lines@.take(i as int))),
            low as int == sat_spec(low_sum_spec(lines@.take(i as int))),
            with_p as int == sat_spec(priced_count_spec(lines@.take(i as int))),
            without_p as int == sat_spec(unpriced_count_spec(lines@.take(i as int))),
        decreases lines@.len() - i,
    {
        let count = lines[i].count;
        proof {
            assert(lines@.take(i + 1).drop_last() =~= lines@.take(i as int));
            assert(lines@.take(i + 1).last() == lines@[i as int]);
            lemma_sums_nonneg(lines@.take(i as int));
        }
        match &lines[i].price {
            Some(p) => {
                match p.market_cents {
                    Some(c) => {
                        market = market.saturating_add(sat_mul(c, count as u64));
                    },
                    None => {},
                }
                match p.direct_cents {
                    Some(c) => {
                        direct = direct.saturating_add(sat_mul(c, count as u64));
                    },
                    None => {},
                }
                match p.low_cents {
                    Some(c) => {
                        low = low.saturating_add(sat_mul(c, count as u64));
                    },
                    None => {},
                }
                with_p = with_p.saturating_add(count as u64);
            },
            None => {
                without_p = without_p.saturating_add(count as u64);
            },
        }
        i = i + 1;
    }
    proof {
        assert(lines@.take(lines@.len() as int) =~= lines@);
    }
    DeckValue { market_total: market, direct_total: direct, low_total: low, cards_with_pricing: with_p, cards_without_pricing: without_p }
}

/// The bucket a deck's market total falls in, for range indexes.
pub fn deck_value_bucket(v: &DeckValue) -> (r: ValueBucket)
    ensures
        r == value_bucket_spec(v.market_total),
{
    value_bucket(v.market_total)
}

/// The deck size classes used for card-count range indexes.
#[derive(Clone, Copy, PartialEq, Eq, Structural, Debug)]
pub enum SizeBucket {
    Small,
    Standard,
    Large,
    EdhPlus,
}

/// The size class of a deck by its total card count.
pub open spec fn size_bucket_spec(total: u64) -> SizeBucket {
    if total <= 40 {
        SizeBucket::Small
    } else if total <= 60 {
        SizeBucket::Standard
    } else if total <= 99 {
        SizeBucket::Large
    } else {
        SizeBucket::EdhPlus
    }
}

pub fn size_bucket(total: u64) -> (r: SizeBucket)
    ensures
        r == size_bucket_spec(total),
{
    if total <= 40 {
        SizeBucket::Small
    } else if total <= 60 {
        SizeBucket::Standard
    } else if total <= 99 {
        SizeBucket::Large
    } else {
        SizeBucket::EdhPlus
    }
}

/// The store-key fragment of a size class.
pub open spec fn size_bucket_label_spec(b: SizeBucket) -> Seq<char> {
    match b {
        SizeBucket::Small => "small"@,
        SizeBucket::Standard => "standard"@,
        SizeBucket::Large => "large"@,
        SizeBucket::EdhPlus => "edh_plus"@,
    }
}

pub fn size_bucket_label(b: SizeBucket) -> (r: &'static str)
    ensures
        r@ == size_bucket_label_spec(b),
{
    match b {
        SizeBucket::Small => "small",
        SizeBucket::Standard => "standard",
        SizeBucket::Large => "large",
        SizeBucket::EdhPlus => "edh_plus",
    }
}

/// One card of a deck list, as the deck summary reads it.
#[derive(Clone)]
pub struct DeckCardInfo {
    pub uuid: String,
    pub name: String,
    pub count: u32,
    pub is_foil: bool,
    pub set_code: String,
    pub tcgplayer_product_id: Option<String>,
}

/// Count-weighted size of one board.
pub open spec fn board_count_spec(s: Seq<DeckCardInfo>) -> int
    decreases s.len(),
{
    if s.len() == 0 {
        0
    } else {
        board_count_spec(s.drop_last()) + s.last().count as int
    }
}

proof fn lemma_board_count_nonneg(s: Seq<DeckCardInfo>)
    ensures
        board_count_spec(s) >= 0,
    decreases s.len(),
{
    if s.len() == 0 {
    } else {
        lemma_board_count_nonneg(s.drop_last());
    }
}

/// The count-weighted number of cards on a board, saturating.
pub fn board_count(cards: &Vec<DeckCardInfo>) -> (r: u64)
    ensures
        r as int == sat_spec(board_count_spec(cards@)),
{
    let mut total: u64 = 0;
    let mut i: usize = 0;
    proof {
        assert(cards@.take(0) =~= Seq::<DeckCardInfo>::empty());
    }
    while i < cards.len()
        invariant
            0 <= i <= cards@.len(),
            total as int == sat_spec(board_count_spec(cards@.take(i as int))),
        decreases cards@.len() - i,
    {
        proof {
            assert(cards@.take(i + 1).drop_last() =~= cards@.take(i as int));
            assert(cards@.take(i + 1).last() == cards@[i as int]);
            lemma_board_count_nonneg(cards@.take(i as int));
        }
        total = total.saturating_add(cards[i].count as u64);
        i = i + 1;
    }
    proof {
        assert(cards@.take(cards@.len() as int) =~= cards@);
    }
    total
}

/// A deck is a commander deck when either commander board is non-empty.
pub fn deck_is_commander(
    commander: &Vec<DeckCardInfo>,
    display_commander: &Vec<DeckCardInfo>,
) -> (r: bool)
    ensures
        r == (commander@.len() > 0 || display_commander@.len() > 0),
{
    commander.len() > 0 || display_commander.len() > 0
}

/// The commander board a summary shows: the display variant when
/// present, else the plain commander board.
pub fn choose_commanders<'a>(
    commander: &'a Vec<DeckCardInfo>,
    display_commander: &'a Vec<DeckCardInfo>,
) -> (r: &'a Vec<DeckCardInfo>)
    ensures
        r@ == (if display_commander@.len() > 0 {
            display_commander@
        } else {
            commander@
        }),
{
    if display_commander.len() > 0 {
        display_commander
    } else {
        commander
    }
}

/// The distinct card identities on a board, by uuid.
pub open spec fn unique_uuid_spec(s: Seq<DeckCardInfo>) -> int
    decreases s.len(),
{
    if s.len() == 0 {
        0
    } else {
        unique_uuid_spec(s.drop_last()) + (if has_uuid_spec(s.drop_last(), s.last().uuid@) {
            0int
        } else {
            1int
        })
    }
}

pub open spec fn has_uuid_spec(s: Seq<DeckCardInfo>, uuid: Seq<char>) -> bool {
    exists|j: int| 0 <= j < s.len() && (#[trigger] s[j]).uuid@ == uuid
}

/// How many distinct card identities a combined deck list holds.
pub fn unique_card_count(cards: &Vec<DeckCardInfo>) -> (r: u64)
    ensures
        r as int == unique_uuid_spec(cards@),
{
    let mut total: u64 = 0;
    let mut i: usize = 0;
    proof {
        assert(cards@.take(0) =~= Seq::<DeckCardInfo>::empty());
        lemma_unique_uuid_bound(cards@.take(0));
    }
    while i < cards.len()
        invariant
            0 <= i <= cards@.len(),
            total as int == unique_uuid_spec(cards@.take(i as int)),
            total as int <= i,
        decreases cards@.len() - i,
    {
        let mut seen = false;
        let mut j: usize = 0;
        while j < i
            invariant
                0 <= j <= i < cards@.len(),
                seen == (exists|k: int|
                    0 <= k < j && (#[trigger] cards@[k]).uuid@ == cards@[i as int].uuid@),
            decreases i - j,
        {
            if crate::pricing::str_eq(cards[j].uuid.as_str(), cards[i].uuid.as_str()) {
                seen = true;
            }
            j = j + 1;
        }
        proof {
            assert(cards@.take(i + 1).drop_last() =~= cards@.take(i as int));
            assert(cards@.take(i + 1).last() == cards@[i as int]);
            if seen {
                let k = choose|k: int|
                    0 <= k < i && (#[trigger] cards@[k]).uuid@ == cards@[i as int].uuid@;
                assert(cards@.take(i as int)[k] == cards@[k]);
                assert(has_uuid_spec(cards@.take(i as int), cards@[i as int].uuid@));
            } else {
                if has_uuid_spec(cards@.take(i as int), cards@[i as int].uuid@) {
                    let ghost target = cards@[i as int].uuid@;
                    let k = choose|k: int|
                        0 <= k < i && (#[trigger] cards@.take(i as int)[k]).uuid@ == target;
                    assert(cards@[k].uuid@ == cards@[i as int].uuid@);
                    assert(false);
                }
            }
        }
        if !seen {
            total = total + 1;
        }
        i = i + 1;
    }
    proof {
        assert(cards@.take(cards@.len() as int) =~= cards@);
    }
    total
}

proof fn lemma_unique_uuid_bound(s: Seq<DeckCardInfo>)
    ensures
        0 <= unique_uuid_spec(s) <= s.len(),
    decreases s.len(),
{
    if s.len() == 0 {
    } else {
        lemma_unique_uuid_bound(s.drop_last());
    }
}

/// The hyphenated name-based (SHA-1) UUID that the DNS namespace
/// derives from a name: a pure function of the name's characters.
pub uninterp spec fn uuid_v5_of(name: Seq<char>) -> Seq<char>;

/// Relies on uuid::Uuid::new_v5 with the DNS namespace: a name-based
/// (SHA-1) UUID computed from the namespace and the name bytes alone,
/// shown in its hyphenated Display form.
#[verifier::external_body]
fn uuid_v5_dns(name: &str) -> (r: String)
    ensures
        r@ == uuid_v5_of(name@),
{
    format!("{}", uuid::Uuid::new_v5(&uuid::Uuid::NAMESPACE_DNS, name.as_bytes()))
}

/// The stable identifier of a deck: the tag "deck_" ahead of the
/// name-based UUID of its code and name joined by an underscore.
pub open spec fn deck_uuid_of(code: Seq<char>, name: Seq<char>) -> Seq<char> {
    "deck_"@ + uuid_v5_of(code + "_"@ + name)
}

/// Derives a deck's identifier deterministically from its code and
/// name: equal inputs always give the same identifier.
pub fn deck_uuid(code: &str, name: &str) -> (r: String)
    ensures
        r@ == deck_uuid_of(code@, name@),
{
    let mut joined = String::from_str(code);
    joined.append("_");
    joined.append(name);
    let tag = uuid_v5_dns(joined.as_str());
    let mut out = String::from_str("deck_");
    out.append(tag.as_str());
    proof {
        assert(out@ =~= deck_uuid_of(code@, name@));
    }
    out
}

} // verus!

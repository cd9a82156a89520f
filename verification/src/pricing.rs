//! The price reconciliation engine: resolving a card's marketplace SKU
//! and price records to a single best-matching record, and the bucket
//! and popularity policies built on prices.
//!
//! All money is in integer cents.  SKU selection prefers the first
//! Near Mint English SKU and falls back to the first SKU; record
//! selection prefers the first record matching the chosen SKU's
//! condition and falls back to the first record.  Missing data is an
//! ordinary `None` outcome, never an error.

use vstd::prelude::*;
use crate::text::lower_spec;
use crate::text::lower_char;
use crate::text::lower_char_spec;

verus! {

/// A marketplace SKU: one purchasable variant of a product.
pub struct TcgplayerSku {
    pub product_id: u64,
    pub sku_id: u64,
    pub condition: Option<String>,
    pub language: Option<String>,
    pub printing: Option<String>,
}

/// One observed price record for a product, up to three tiers, in cents.
pub struct PriceRecord {
    pub condition: String,
    pub market_cents: Option<u64>,
    pub direct_cents: Option<u64>,
    pub low_cents: Option<u64>,
}

/// Case-insensitive (ASCII) equality of two names.
pub open spec fn ieq_spec(a: Seq<char>, b: Seq<char>) -> bool {
    lower_spec(a) == lower_spec(b)
}

/// Case-insensitive (ASCII) string comparison.
pub fn str_ieq(a: &str, b: &str) -> (r: bool)
    ensures
        r == ieq_spec(a@, b@),
{
    let na = a.unicode_len();
    let nb = b.unicode_len();
    if na != nb {
        proof {
            assert(lower_spec(a@).len() != lower_spec(b@).len());
        }
        return false;
    }
    let mut i: usize = 0;
    while i < na
        invariant
            na == a@.len(),
            a@.len() == b@.len(),
            0 <= i <= na,
            forall|j: int| 0 <= j < i ==> lower_char_spec(a@[j]) == lower_char_spec(b@[j]),
        decreases na - i,
    {
        if lower_char(a.get_char(i)) != lower_char(b.get_char(i)) {
            proof {
                assert(lower_spec(a@)[i as int] != lower_spec(b@)[i as int]);
            }
            return false;
        }
        i = i + 1;
    }
    proof {
        assert(lower_spec(a@) =~= lower_spec(b@));
    }
    true
}

/// Exact string equality.
pub fn str_eq(a: &str, b: &str) -> (r: bool)
    ensures
        r == (a@ == b@),
{
    let na = a.unicode_len();
    let nb = b.unicode_len();
    if na != nb {
        return false;
    }
    let mut i: usize = 0;
    while i < na
        invariant
            na == a@.len(),
            a@.len() == b@.len(),
            0 <= i <= na,
            forall|j: int| 0 <= j < i ==> a@[j] == b@[j],
        decreases na - i,
    {
        if a.get_char(i) != b.get_char(i) {
            return false;
        }
        i = i + 1;
    }
    proof {
        assert(a@ =~= b@);
    }
    true
}

/// A condition names Near Mint: "near mint" or "nm" in any case, or the
/// degenerate marketplace form "1".
pub open spec fn near_mint_spec(c: Seq<char>) -> bool {
    ieq_spec(c, "near mint"@) || ieq_spec(c, "nm"@) || c == "1"@
}

/// A language names English: "english" in any case, or the degenerate
/// marketplace form "1".
pub open spec fn english_spec(l: Seq<char>) -> bool {
    ieq_spec(l, "english"@) || l == "1"@
}

pub fn is_near_mint(c: &str) -> (r: bool)
    ensures
        r == near_mint_spec(c@),
{
    str_ieq(c, "near mint") || str_ieq(c, "nm") || str_eq(c, "1")
}

pub fn is_english(l: &str) -> (r: bool)
    ensures
        r == english_spec(l@),
{
    str_ieq(l, "english") || str_eq(l, "1")
}

/// A SKU that is both Near Mint and English; a SKU without a recorded
/// condition or language never qualifies.
pub open spec fn sku_nm_en_spec(s: TcgplayerSku) -> bool {
    (match s.condition {
        Some(c) => near_mint_spec(c@),
        None => false,
    }) && (match s.language {
        Some(l) => english_spec(l@),
        None => false,
    })
}

fn sku_nm_en(s: &TcgplayerSku) -> (r: bool)
    ensures
        r == sku_nm_en_spec(*s),
{
    let cond_ok = match &s.condition {
        Some(c) => is_near_mint(c.as_str()),
        None => false,
    };
    if !cond_ok {
        return false;
    }
    match &s.language {
        Some(l) => is_english(l.as_str()),
        None => false,
    }
}

/// The best SKU of a product: the first Near Mint English SKU in source
/// order, else the first SKU at all, else none.  Source order is
/// significant and must be kept stable by the caller.
pub fn best_sku(skus: &Vec<TcgplayerSku>) -> (r: Option<usize>)
    ensures
        match r {
            Some(i) => {
                &&& (i as int) < skus@.len()
                &&& (if exists|j: int| 0 <= j < skus@.len() && sku_nm_en_spec(#[trigger] skus@[j]) {
                    sku_nm_en_spec(skus@[i as int]) && (forall|j: int|
                        0 <= j < i ==> !sku_nm_en_spec(#[trigger] skus@[j]))
                } else {
                    i == 0
                })
            },
            None => skus@.len() == 0,
        },
{
    let mut i: usize = 0;
    while i < skus.len()
        invariant
            0 <= i <= skus@.len(),
            forall|j: int| 0 <= j < i ==> !sku_nm_en_spec(#[trigger] skus@[j]),
        decreases skus@.len() - i,
    {
        if sku_nm_en(&skus[i]) {
            return Some(i);
        }
        i = i + 1;
    }
    if skus.len() > 0 {
        proof {
            assert(forall|j: int| 0 <= j < skus@.len() ==> !sku_nm_en_spec(#[trigger] skus@[j]));
        }
        Some(0)
    } else {
        None
    }
}

/// Whether a record's condition matches a target condition.
pub open spec fn cond_matches_spec(c: Seq<char>, target: Seq<char>) -> bool {
    ieq_spec(c, target)
}

/// The price record matching a condition: the first record whose
/// condition matches case-insensitively, else the first record at all,
/// else none.
pub fn select_price(prices: &Vec<PriceRecord>, target: &str) -> (r: Option<usize>)
    ensures
        match r {
            Some(i) => {
                &&& (i as int) < prices@.len()
                &&& (if exists|j: int|
                    0 <= j < prices@.len() && cond_matches_spec(
                        (#[trigger] prices@[j]).condition@,
                        target@,
                    ) {
                    cond_matches_spec(prices@[i as int].condition@, target@) && (forall|j: int|
                        0 <= j < i ==> !cond_matches_spec(
                            (#[trigger] prices@[j]).condition@,
                            target@,
                        ))
                } else {
                    i == 0
                })
            },
            None => prices@.len() == 0,
        },
{
    let mut i: usize = 0;
    while i < prices.len()
        invariant
            0 <= i <= prices@.len(),
            forall|j: int|
                0 <= j < i ==> !cond_matches_spec((#[trigger] prices@[j]).condition@, target@),
        decreases prices@.len() - i,
    {
        if str_ieq(prices[i].condition.as_str(), target) {
            return Some(i);
        }
        i = i + 1;
    }
    if prices.len() > 0 {
        proof {
            assert(forall|j: int|
                0 <= j < prices@.len() ==> !cond_matches_spec(
                    (#[trigger] prices@[j]).condition@,
                    target@,
                ));
        }
        Some(0)
    } else {
        None
    }
}

/// The condition the chosen SKU asks for; a SKU without one asks for
/// Near Mint.
pub open spec fn sku_condition_spec(s: TcgplayerSku) -> Seq<char> {
    match s.condition {
        Some(c) => c@,
        None => "Near Mint"@,
    }
}

/// Resolves a product's single best price record, as an index into
/// `prices`.  With no price records the product is unpriced (`None`).
/// With SKUs present, the best SKU's condition picks the record (first
/// match, else the first record); with no SKUs at all, the first record
/// is used directly.  Given any price record at all, some record is
/// always chosen: missing SKU data never makes a priced product
/// unpriced.
pub fn resolve_price(prices: &Vec<PriceRecord>, skus: &Vec<TcgplayerSku>) -> (r: Option<usize>)
    ensures
        r is None <==> prices@.len() == 0,
        match r {
            Some(i) => {
                &&& (i as int) < prices@.len()
                &&& (skus@.len() == 0 ==> i == 0)
                &&& (skus@.len() > 0 ==> {
                    let target = chosen_condition_spec(skus@);
                    if exists|j: int|
                        0 <= j < prices@.len() && cond_matches_spec(
                            (#[trigger] prices@[j]).condition@,
                            target,
                        ) {
                        cond_matches_spec(prices@[i as int].condition@, target) && (forall|j: int|
                            0 <= j < i ==> !cond_matches_spec(
                                (#[trigger] prices@[j]).condition@,
                                target,
                            ))
                    } else {
                        i == 0
                    }
                })
            },
            None => true,
        },
{
    if prices.len() == 0 {
        return None;
    }
    match best_sku(skus) {
        Some(si) => {
            let target: &str = match &skus[si].condition {
                Some(c) => c.as_str(),
                None => "Near Mint",
            };
            proof {
                assert(target@ == sku_condition_spec(skus@[si as int]));
                if exists|j: int| 0 <= j < skus@.len() && sku_nm_en_spec(#[trigger] skus@[j]) {
                    assert(0 <= si < skus@.len() && sku_nm_en_spec(skus@[si as int]) && (forall|
                        k: int,
                    | 0 <= k < si ==> !sku_nm_en_spec(#[trigger] skus@[k])));
                    let jj = best_sku_idx_spec(skus@);
                    assert(0 <= jj < skus@.len() && sku_nm_en_spec(skus@[jj]) && (forall|k: int|
                        0 <= k < jj ==> !sku_nm_en_spec(#[trigger] skus@[k])));
                    if jj < si {
                        assert(!sku_nm_en_spec(skus@[jj]));
                        assert(false);
                    }
                    if si < jj {
                        assert(!sku_nm_en_spec(skus@[si as int]));
                        assert(false);
                    }
                    assert(jj == si);
                } else {
                    assert(best_sku_idx_spec(skus@) == 0);
                    assert(si == 0);
                }
                assert(sku_condition_spec(skus@[si as int]) == chosen_condition_spec(skus@));
            }
            let r = select_price(prices, target);
            proof {
                assert(r is Some);
            }
            r
        },
        None => Some(0),
    }
}

/// The condition of the best SKU of a non-empty SKU list.
pub open spec fn chosen_condition_spec(skus: Seq<TcgplayerSku>) -> Seq<char> {
    sku_condition_spec(skus[best_sku_idx_spec(skus)])
}

/// The index the best-SKU policy picks from a non-empty SKU list: the
/// first Near Mint English SKU, else the first SKU.
pub open spec fn best_sku_idx_spec(skus: Seq<TcgplayerSku>) -> int {
    if exists|j: int| 0 <= j < skus.len() && sku_nm_en_spec(#[trigger] skus[j]) {
        choose|j: int|
            0 <= j < skus.len() && sku_nm_en_spec(#[trigger] skus[j]) && (forall|k: int|
                0 <= k < j ==> !sku_nm_en_spec(#[trigger] skus[k]))
    } else {
        0
    }
}

/// The marketplace price buckets, half-open on the upper bound: a price
/// exactly on a boundary belongs to the higher bucket.
#[derive(Clone, Copy, PartialEq, Eq, Structural, Debug)]
pub enum PriceBucket {
    Under1,
    From1To5,
    From5To10,
    From10To25,
    From25To50,
    From50To100,
    From100To500,
    Over500,
}

/// The bucket of a market price in cents.
pub open spec fn price_bucket_spec(cents: u64) -> PriceBucket {
    if cents < 100 {
        PriceBucket::Under1
    } else if cents < 500 {
        PriceBucket::From1To5
    } else if cents < 1000 {
        PriceBucket::From5To10
    } else if cents < 2500 {
        PriceBucket::From10To25
    } else if cents < 5000 {
        PriceBucket::From25To50
    } else if cents < 10000 {
        PriceBucket::From50To100
    } else if cents < 50000 {
        PriceBucket::From100To500
    } else {
        PriceBucket::Over500
    }
}

/// Buckets a market price given in cents.  A price exactly on a bucket
/// boundary, such as 5000 cents, falls in the higher bucket.
pub fn price_bucket(cents: u64) -> (r: PriceBucket)
    ensures
        r == price_bucket_spec(cents),
{
    if cents < 100 {
        PriceBucket::Under1
    } else if cents < 500 {
        PriceBucket::From1To5
    } else if cents < 1000 {
        PriceBucket::From5To10
    } else if cents < 2500 {
        PriceBucket::From10To25
    } else if cents < 5000 {
        PriceBucket::From25To50
    } else if cents < 10000 {
        PriceBucket::From50To100
    } else if cents < 50000 {
        PriceBucket::From100To500
    } else {
        PriceBucket::Over500
    }
}

/// The store-key fragment of a price bucket.
pub open spec fn price_bucket_label_spec(b: PriceBucket) -> Seq<char> {
    match b {
        PriceBucket::Under1 => "under_1"@,
        PriceBucket::From1To5 => "1_to_5"@,
        PriceBucket::From5To10 => "5_to_10"@,
        PriceBucket::From10To25 => "10_to_25"@,
        PriceBucket::From25To50 => "25_to_50"@,
        PriceBucket::From50To100 => "50_to_100"@,
        PriceBucket::From100To500 => "100_to_500"@,
        PriceBucket::Over500 => "over_500"@,
    }
}

pub fn price_bucket_label(b: PriceBucket) -> (r: &'static str)
    ensures
        r@ == price_bucket_label_spec(b),
{
    match b {
        PriceBucket::Under1 => "under_1",
        PriceBucket::From1To5 => "1_to_5",
        PriceBucket::From5To10 => "5_to_10",
        PriceBucket::From10To25 => "10_to_25",
        PriceBucket::From25To50 => "25_to_50",
        PriceBucket::From50To100 => "50_to_100",
        PriceBucket::From100To500 => "100_to_500",
        PriceBucket::Over500 => "over_500",
    }
}

/// The deck value buckets, half-open on the upper bound.
#[derive(Clone, Copy, PartialEq, Eq, Structural, Debug)]
pub enum ValueBucket {
    Under25,
    From25To50,
    From50To100,
    From100To200,
    From200To500,
    Over500,
}

/// The bucket of a deck value in cents.
pub open spec fn value_bucket_spec(cents: u64) -> ValueBucket {
    if cents < 2500 {
        ValueBucket::Under25
    } else if cents < 5000 {
        ValueBucket::From25To50
    } else if cents < 10000 {
        ValueBucket::From50To100
    } else if cents < 20000 {
        ValueBucket::From100To200
    } else if cents < 50000 {
        ValueBucket::From200To500
    } else {
        ValueBucket::Over500
    }
}

/// Buckets a deck value given in cents; boundary values fall in the
/// higher bucket.
pub fn value_bucket(cents: u64) -> (r: ValueBucket)
    ensures
        r == value_bucket_spec(cents),
{
    if cents < 2500 {
        ValueBucket::Under25
    } else if cents < 5000 {
        ValueBucket::From25To50
    } else if cents < 10000 {
        ValueBucket::From50To100
    } else if cents < 20000 {
        ValueBucket::From100To200
    } else if cents < 50000 {
        ValueBucket::From200To500
    } else {
        ValueBucket::Over500
    }
}

/// The store-key fragment of a value bucket.
pub open spec fn value_bucket_label_spec(b: ValueBucket) -> Seq<char> {
    match b {
        ValueBucket::Under25 => "under_25"@,
        ValueBucket::From25To50 => "25_to_50"@,
        ValueBucket::From50To100 => "50_to_100"@,
        ValueBucket::From100To200 => "100_to_200"@,
        ValueBucket::From200To500 => "200_to_500"@,
        ValueBucket::Over500 => "over_500"@,
    }
}

pub fn value_bucket_label(b: ValueBucket) -> (r: &'static str)
    ensures
        r@ == value_bucket_label_spec(b),
{
    match b {
        ValueBucket::Under25 => "under_25",
        ValueBucket::From25To50 => "25_to_50",
        ValueBucket::From50To100 => "50_to_100",
        ValueBucket::From100To200 => "100_to_200",
        ValueBucket::From200To500 => "200_to_500",
        ValueBucket::Over500 => "over_500",
    }
}

/// The autocomplete popularity weight of a rarity: a static priority,
/// independent of price or recency.
pub open spec fn rarity_weight_spec(r: Seq<char>) -> u64 {
    if r == "mythic"@ {
        10
    } else if r == "rare"@ {
        8
    } else if r == "uncommon"@ {
        5
    } else if r == "common"@ {
        3
    } else {
        1
    }
}

pub fn rarity_weight(rarity: &str) -> (r: u64)
    ensures
        r == rarity_weight_spec(rarity@),
{
    if str_eq(rarity, "mythic") {
        10
    } else if str_eq(rarity, "rare") {
        8
    } else if str_eq(rarity, "uncommon") {
        5
    } else if str_eq(rarity, "common") {
        3
    } else {
        1
    }
}

/// Case-insensitive comparison of a string against a character list.
fn str_chars_ieq(a: &str, b: &Vec<char>) -> (r: bool)
    ensures
        r == (lower_spec(a@) == lower_spec(b@)),
{
    let na = a.unicode_len();
    if na != b.len() {
        proof {
            assert(lower_spec(a@).len() != lower_spec(b@).len());
        }
        return false;
    }
    let mut i: usize = 0;
    while i < na
        invariant
            na == a@.len(),
            a@.len() == b@.len(),
            0 <= i <= na,
            forall|j: int| 0 <= j < i ==> lower_char_spec(a@[j]) == lower_char_spec(b@[j]),
        decreases na - i,
    {
        if lower_char(a.get_char(i)) != lower_char(b[i]) {
            proof {
                assert(lower_spec(a@)[i as int] != lower_spec(b@)[i as int]);
            }
            return false;
        }
        i = i + 1;
    }
    proof {
        assert(lower_spec(a@) =~= lower_spec(b@));
    }
    true
}

/// Whether a SKU passes the ingest filter for a wanted language and
/// condition.  The language matches case-insensitively, with "1"
/// accepted for English; the condition matches case-insensitively, also
/// in its space-stripped form, with "nm" and "1" accepted for Near
/// Mint.  A SKU without a recorded language or condition never passes.
pub open spec fn sku_matches_filter_spec(
    s: TcgplayerSku,
    language: Seq<char>,
    condition: Seq<char>,
) -> bool {
    let lang_ok = match s.language {
        Some(l) => ieq_spec(l@, language) || (ieq_spec(language, "english"@) && l@ == "1"@),
        None => false,
    };
    let cond_ok = match s.condition {
        Some(c) => ieq_spec(c@, condition) || ieq_spec(
            c@,
            crate::text::strip_spaces_spec(condition),
        ) || (ieq_spec(condition, "near mint"@) && (ieq_spec(c@, "nm"@) || c@ == "1"@)),
        None => false,
    };
    lang_ok && cond_ok
}

/// Tests one SKU against the ingest language and condition filter.
pub fn sku_matches_filter(s: &TcgplayerSku, language: &str, condition: &str) -> (r: bool)
    ensures
        r == sku_matches_filter_spec(*s, language@, condition@),
{
    let lang_ok = match &s.language {
        Some(l) => str_ieq(l.as_str(), language) || (str_ieq(language, "english") && str_eq(
            l.as_str(),
            "1",
        )),
        None => false,
    };
    if !lang_ok {
        return false;
    }
    let stripped = crate::text::strip_spaces(condition);
    match &s.condition {
        Some(c) => str_ieq(c.as_str(), condition) || str_chars_ieq(c.as_str(), &stripped) || (
        str_ieq(condition, "near mint") && (str_ieq(c.as_str(), "nm") || str_eq(c.as_str(), "1"))),
        None => false,
    }
}

} // verus!

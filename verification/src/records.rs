//! The typed corpus records: the shapes the bulk card, deck, and SKU
//! data is loaded into before the indexing and pricing engines consume
//! it.  These are plain data; the loader that fills them stays outside
//! the crate.

use vstd::prelude::*;
use std::collections::HashMap;
use crate::pricing::TcgplayerSku;

verus! {

/// File-level metadata of a bulk data file.
pub struct Meta {
    pub date: String,
    pub version: String,
}

/// The SKU bulk file: per card uuid, the marketplace SKUs.
pub struct TcgplayerSkusFile {
    pub meta: Meta,
    pub data: HashMap<String, Vec<TcgplayerSku>>,
}

/// External identifiers a printing may carry.
pub struct Identifiers {
    pub abu_id: Option<String>,
    pub card_kingdom_etched_id: Option<String>,
    pub card_kingdom_foil_id: Option<String>,
    pub card_kingdom_id: Option<String>,
    pub cardsphere_id: Option<String>,
    pub cardsphere_foil_id: Option<String>,
    pub cardtrader_id: Option<String>,
    pub csi_id: Option<String>,
    pub mcm_id: Option<String>,
    pub mcm_meta_id: Option<String>,
    pub miniaturemarket_id: Option<String>,
    pub mtg_arena_id: Option<String>,
    pub mtgjson_foil_version_id: Option<String>,
    pub mtgjson_non_foil_version_id: Option<String>,
    pub mtgjson_v4_id: Option<String>,
    pub mtgo_foil_id: Option<String>,
    pub mtgo_id: Option<String>,
    pub multiverse_id: Option<String>,
    pub scg_id: Option<String>,
    pub scryfall_id: Option<String>,
    pub scryfall_card_back_id: Option<String>,
    pub scryfall_oracle_id: Option<String>,
    pub scryfall_illustration_id: Option<String>,
    pub tcgplayer_product_id: Option<String>,
    pub tcgplayer_etched_product_id: Option<String>,
    pub tnt_id: Option<String>,
}

/// A card's translated printing in another language.
pub struct ForeignData {
    pub face_name: Option<String>,
    pub flavor_text: Option<String>,
    pub identifiers: Identifiers,
    pub language: String,
    pub name: String,
    pub text: Option<String>,
    pub card_type: Option<String>,
}

/// Command-zone eligibility flags of a card.
pub struct LeadershipSkills {
    pub brawl: bool,
    pub commander: bool,
    pub oathbreaker: bool,
}

/// Per-format legality tags of a card.
pub struct Legalities {
    pub alchemy: Option<String>,
    pub brawl: Option<String>,
    pub commander: Option<String>,
    pub duel: Option<String>,
    pub explorer: Option<String>,
    pub future: Option<String>,
    pub gladiator: Option<String>,
    pub historic: Option<String>,
    pub historicbrawl: Option<String>,
    pub legacy: Option<String>,
    pub modern: Option<String>,
    pub oathbreaker: Option<String>,
    pub oldschool: Option<String>,
    pub pauper: Option<String>,
    pub paupercommander: Option<String>,
    pub penny: Option<String>,
    pub pioneer: Option<String>,
    pub predh: Option<String>,
    pub premodern: Option<String>,
    pub standard: Option<String>,
    pub standardbrawl: Option<String>,
    pub timeless: Option<String>,
    pub vintage: Option<String>,
}

/// Marketplace purchase links of a printing.
pub struct PurchaseUrls {
    pub card_kingdom: Option<String>,
    pub card_kingdom_etched: Option<String>,
    pub card_kingdom_foil: Option<String>,
    pub cardmarket: Option<String>,
    pub tcgplayer: Option<String>,
    pub tcgplayer_etched: Option<String>,
}

/// Cards related to a printing outside its own faces.
pub struct RelatedCards {
    pub reverse_related: Option<Vec<String>>,
    pub spellbook: Option<Vec<String>>,
}

/// One dated rules clarification of a card.
pub struct Ruling {
    pub date: String,
    pub text: String,
}

/// The sealed products a printing appears in, by finish.
pub struct SourceProducts {
    pub etched: Vec<String>,
    pub foil: Vec<String>,
    pub nonfoil: Vec<String>,
}

/// Translated names of a set.
pub struct Translations {
    pub ancient_greek: Option<String>,
    pub arabic: Option<String>,
    pub chinese_simplified: Option<String>,
    pub chinese_traditional: Option<String>,
    pub french: Option<String>,
    pub german: Option<String>,
    pub hebrew: Option<String>,
    pub italian: Option<String>,
    pub japanese: Option<String>,
    pub korean: Option<String>,
    pub latin: Option<String>,
    pub phyrexian: Option<String>,
    pub portuguese_brazil: Option<String>,
    pub russian: Option<String>,
    pub sanskrit: Option<String>,
    pub spanish: Option<String>,
}

/// One card stack of a deck file's board.
pub struct DeckCard {
    pub uuid: String,
    pub name: String,
    pub count: u32,
    pub is_foil: bool,
    pub set_code: String,
    pub identifiers: Identifiers,
}

/// The default stack count of a deck card whose file omits one.
pub fn default_count() -> (r: u32)
    ensures
        r == 1,
{
    1
}

/// Bookkeeping of one finished indexing pass.
pub struct IndexStats {
    pub total_sets: usize,
    pub total_cards: usize,
    pub processed_cards: usize,
    pub last_update: String,
    pub source: String,
    pub version: String,
}

/// Summary metadata of one set.
pub struct SetInfo {
    pub code: String,
    pub name: String,
    pub release_date: String,
    pub set_type: String,
    pub total_cards: usize,
    pub base_set_size: u32,
}

} // verus!

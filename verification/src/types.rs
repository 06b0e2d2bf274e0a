//! The value types that cross the engine's boundary: items, collectors
//! and progress targets, together with the text codec of `ItemType`.

use vstd::prelude::*;
use vstd::string::StringExecFns;

verus! {

/// The closed set of item kinds the remote catalog serves.
/// Subscription items are recognized but never crawled.
#[derive(Clone, Copy, Debug, PartialEq, Eq, Structural)]
pub enum ItemType {
    Album,
    Track,
    Package,
    Lepledge,
    Subscription,
}

/// The text tag under which an `ItemType` is stored and transmitted.
pub open spec fn item_type_tag(t: ItemType) -> Seq<char> {
    match t {
        ItemType::Album => "album"@,
        ItemType::Track => "track"@,
        ItemType::Package => "package"@,
        ItemType::Lepledge => "lepledge"@,
        ItemType::Subscription => "subscription"@,
    }
}

/// The `ItemType` a text tag decodes to, if any.
pub open spec fn item_type_of_tag(s: Seq<char>) -> Option<ItemType> {
    if s == item_type_tag(ItemType::Album) {
        Some(ItemType::Album)
    } else if s == item_type_tag(ItemType::Track) {
        Some(ItemType::Track)
    } else if s == item_type_tag(ItemType::Package) {
        Some(ItemType::Package)
    } else if s == item_type_tag(ItemType::Lepledge) {
        Some(ItemType::Lepledge)
    } else if s == item_type_tag(ItemType::Subscription) {
        Some(ItemType::Subscription)
    } else {
        None
    }
}

impl ItemType {
    /// Encode the kind as its text tag.
    pub fn to_tag(&self) -> (r: String)
        ensures
            r@ == item_type_tag(*self),
    {
        match self {
            ItemType::Album => String::from_str("album"),
            ItemType::Track => String::from_str("track"),
            ItemType::Package => String::from_str("package"),
            ItemType::Lepledge => String::from_str("lepledge"),
            ItemType::Subscription => String::from_str("subscription"),
        }
    }

    /// Decode a text tag; unknown tags decode to `None`.
    pub fn from_tag(tag: &String) -> (r: Option<ItemType>)
        ensures
            r == item_type_of_tag(tag@),
    {
        if *tag == String::from_str("album") {
            Some(ItemType::Album)
        } else if *tag == String::from_str("track") {
            Some(ItemType::Track)
        } else if *tag == String::from_str("package") {
            Some(ItemType::Package)
        } else if *tag == String::from_str("lepledge") {
            Some(ItemType::Lepledge)
        } else if *tag == String::from_str("subscription") {
            Some(ItemType::Subscription)
        } else {
            None
        }
    }
}

/// The codec is bidirectional: decoding an encoded kind gives the kind
/// back, so the five tags are pairwise distinct names.
pub proof fn lemma_item_type_tag_roundtrip(t: ItemType)
    ensures
        item_type_of_tag(item_type_tag(t)) == Some(t),
{
    reveal_strlit("album");
    reveal_strlit("track");
    reveal_strlit("package");
    reveal_strlit("lepledge");
    reveal_strlit("subscription");
    assert("track"@ != "album"@) by {
        assert("track"@[0] != "album"@[0]);
    }
    assert("subscription"@ != "album"@) by {
        assert("subscription"@.len() != "album"@.len());
    }
    assert("subscription"@ != "track"@) by {
        assert("subscription"@.len() != "track"@.len());
    }
    assert("subscription"@ != "package"@) by {
        assert("subscription"@.len() != "package"@.len());
    }
    assert("subscription"@ != "lepledge"@) by {
        assert("subscription"@.len() != "lepledge"@.len());
    }
}

/// A remote item as the boundary hands it in: an album, track or other
/// listing, possibly still carrying the album container it belongs to.
#[derive(Clone, Debug)]
pub struct Item {
    pub item_id: i64,
    pub item_type: ItemType,
    pub item_title: String,
    pub item_url: String,
    pub album_id: Option<i64>,
    pub album_title: Option<String>,
    pub band_id: i64,
    pub band_name: String,
    pub token: Option<String>,
    pub also_collected_count: i64,
}

/// A remote user as the boundary hands it in.
#[derive(Clone, Debug)]
pub struct Collector {
    pub fan_id: i64,
    pub username: String,
    pub name: String,
    pub token: Option<String>,
}

/// Progress record of one recommendation request.
/// Stage 1 refreshes the items the target user collects, stage 2 the
/// collectors discovered through them; stage 3 means complete.
#[derive(Clone, Copy, Debug, PartialEq, Eq, Structural)]
pub struct Target {
    pub fan_id: i64,
    pub stage: i64,
    pub count_left: i64,
    pub count_total: i64,
    pub eta: i64,
}

/// Decoded `collectors-data` blob of an item page.
pub struct CollectorsData {
    pub thumbs: Vec<Collector>,
    pub more_thumbs_available: bool,
    pub shown_thumbs: Vec<Collector>,
}

/// Decoded `bc-page-properties` element of an item page.
pub struct AlbumProperties {
    pub item_type: String,
    pub item_id: i64,
}

/// Decoded body of one page of the collectors endpoint.
pub struct CollectorsResult {
    pub results: Vec<Collector>,
    pub more_available: bool,
}

/// Decoded body of one page of the collection endpoint.
pub struct CollectionResult {
    pub items: Vec<Item>,
    pub more_available: bool,
}

/// Pagination header of the initial collection page.
pub struct CollectionData {
    pub last_token: Option<String>,
    pub item_count: i64,
    pub batch_size: i64,
}

} // verus!

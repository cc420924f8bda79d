//! File-type icons: pixels turned from the system's BGRA order into RGBA, encoded as
//! a PNG `data:` URL, and kept per extension once computed.

use vstd::prelude::*;
use crate::text::push_char;
use crate::base64::{base64, base64_encode};
use crate::entries::{lowercase, to_lowercase};

verus! {

/// The byte at `i` after the blue and red channels of every whole 4-byte pixel of
/// `bgra` have been swapped; bytes past the last whole pixel stay.
pub open spec fn swapped_byte(bgra: Seq<u8>, i: int) -> u8 {
    if i < bgra.len() - bgra.len() % 4 {
        if i % 4 == 0 {
            bgra[i + 2]
        } else if i % 4 == 2 {
            bgra[i - 2]
        } else {
            bgra[i]
        }
    } else {
        bgra[i]
    }
}

/// Turns pixels from BGRA into RGBA order in place: swaps the first and third byte of
/// every whole 4-byte pixel.
pub fn bgra_to_rgba(pixels: &mut Vec<u8>)
    ensures
        final(pixels)@.len() == old(pixels)@.len(),
        forall|i: int| 0 <= i < old(pixels)@.len() ==> #[trigger] final(pixels)@[i] == swapped_byte(old(pixels)@, i),
{
    let ghost original = pixels@;
    let n = pixels.len();
    let whole = n - n % 4;
    let mut i: usize = 0;
    while i < whole
        invariant
            n == original.len(),
            whole == n - n % 4,
            i <= whole,
            i % 4 == 0,
            pixels@.len() == n,
            forall|k: int| 0 <= k < i ==> #[trigger] pixels@[k] == swapped_byte(original, k),
            forall|k: int| i <= k < n ==> #[trigger] pixels@[k] == original[k],
        decreases whole - i,
    {
        let blue = pixels[i];
        let red = pixels[i + 2];
        pixels.set(i, red);
        pixels.set(i + 2, blue);
        i = i + 4;
    }
}

/// What the `image` crate writes as the PNG of a `width` by `height` RGBA image whose
/// pixels are `rgba`, or none when it writes nothing.
pub uninterp spec fn png_encoding(width: u32, height: u32, rgba: Seq<u8>) -> Option<Seq<u8>>;

/// Calls `image::RgbaImage::from_raw`, then `DynamicImage::write_to` with PNG into a
/// byte buffer. The contract claims that the result is a function of the three
/// arguments (`png_encoding`), and, as `from_raw`'s source shows, that there is none
/// when `rgba` is shorter than 4 bytes per pixel (or that length overflows `usize`).
/// The PNG encoder asserts that the buffer holds exactly 4 bytes per pixel, so a longer
/// buffer is ruled out.
#[verifier::external_body]
fn encode_png(width: u32, height: u32, rgba: Vec<u8>) -> (res: Option<Vec<u8>>)
    requires
        rgba@.len() <= 4 * width * height || 4 * width * height > usize::MAX,
    ensures
        match res {
            Some(bytes) => png_encoding(width, height, rgba@) == Some(bytes@),
            None => png_encoding(width, height, rgba@) is None,
        },
        4 * width * height > usize::MAX || 4 * width * height > rgba@.len() ==> res is None,
{
    let image = image::RgbaImage::from_raw(width, height, rgba)?;
    let mut bytes: Vec<u8> = Vec::new();
    image::DynamicImage::ImageRgba8(image)
        .write_to(&mut std::io::Cursor::new(&mut bytes), image::ImageFormat::Png)
        .ok()?;
    Some(bytes)
}

/// The prefix of a PNG `data:` URL: "data:image/png;base64,".
pub open spec fn png_url_prefix() -> Seq<char> {
    seq!['d', 'a', 't', 'a', ':', 'i', 'm', 'a', 'g', 'e', '/', 'p', 'n', 'g', ';', 'b', 'a', 's', 'e', '6', '4', ',']
}

/// The `data:` URL of PNG bytes: the prefix, then the bytes in base64.
pub fn png_data_url(png: &[u8]) -> (url: String)
    ensures
        url@ == png_url_prefix() + base64(png@),
{
    let mut url = String::new();
    push_char(&mut url, 'd');
    push_char(&mut url, 'a');
    push_char(&mut url, 't');
    push_char(&mut url, 'a');
    push_char(&mut url, ':');
    push_char(&mut url, 'i');
    push_char(&mut url, 'm');
    push_char(&mut url, 'a');
    push_char(&mut url, 'g');
    push_char(&mut url, 'e');
    push_char(&mut url, '/');
    push_char(&mut url, 'p');
    push_char(&mut url, 'n');
    push_char(&mut url, 'g');
    push_char(&mut url, ';');
    push_char(&mut url, 'b');
    push_char(&mut url, 'a');
    push_char(&mut url, 's');
    push_char(&mut url, 'e');
    push_char(&mut url, '6');
    push_char(&mut url, '4');
    push_char(&mut url, ',');
    let encoded = base64_encode(png);
    url.append(encoded.as_str());
    url
}

/// The icon of a `width` by `height` RGBA image as a PNG `data:` URL, or none when the
/// image cannot be encoded (see `png_encoding`). The pixels may not be more than the
/// image holds: the encoder panics on such a buffer.
pub fn icon_data_url(width: u32, height: u32, rgba: Vec<u8>) -> (url: Option<String>)
    requires
        rgba@.len() <= 4 * width * height || 4 * width * height > usize::MAX,
    ensures
        match png_encoding(width, height, rgba@) {
            Some(png) => url matches Some(u) && u@ == png_url_prefix() + base64(png),
            None => url is None,
        },
{
    match encode_png(width, height, rgba) {
        Some(png) => Some(png_data_url(png.as_slice())),
        None => None,
    }
}

} // verus!

verus! {

/// The icons computed so far, by lower-cased extension; `None` for an extension
/// that has no icon. Keys and icons are kept in two `Vec`s, no key twice, rather than
/// in a `HashMap`: with `String` keys, what Verus knows of the hash collections does
/// not let it prove what they hold.
pub struct IconCache {
    keys: Vec<String>,
    icons: Vec<Option<String>>,
}

/// The map that lists of keys and of values make, a later key winning.
pub open spec fn map_of(keys: Seq<Seq<char>>, values: Seq<Option<Seq<char>>>) -> Map<Seq<char>, Option<Seq<char>>>
    decreases keys.len(),
{
    if keys.len() == 0 || values.len() == 0 {
        Map::empty()
    } else {
        map_of(keys.drop_last(), values.drop_last()).insert(keys.last(), values.last())
    }
}

proof fn lemma_map_of_index(keys: Seq<Seq<char>>, values: Seq<Option<Seq<char>>>, i: int)
    requires
        keys.len() == values.len(),
        keys.no_duplicates(),
        0 <= i < keys.len(),
    ensures
        map_of(keys, values).dom().contains(keys[i]),
        map_of(keys, values)[keys[i]] == values[i],
    decreases keys.len(),
{
    if i < keys.len() - 1 {
        lemma_map_of_index(keys.drop_last(), values.drop_last(), i);
    }
}

proof fn lemma_map_of_dom(keys: Seq<Seq<char>>, values: Seq<Option<Seq<char>>>, k: Seq<char>)
    requires
        keys.len() == values.len(),
    ensures
        map_of(keys, values).dom().contains(k) <==> keys.contains(k),
    decreases keys.len(),
{
    if keys.len() > 0 {
        lemma_map_of_dom(keys.drop_last(), values.drop_last(), k);
        if keys.drop_last().contains(k) {
            let j = choose|j: int| 0 <= j < keys.drop_last().len() && keys.drop_last()[j] == k;
            assert(keys[j] == k);
        }
        if keys.contains(k) && k != keys.last() {
            let j = choose|j: int| 0 <= j < keys.len() && keys[j] == k;
            assert(keys.drop_last()[j] == k);
        }
    }
}

proof fn lemma_map_of_update(keys: Seq<Seq<char>>, values: Seq<Option<Seq<char>>>, i: int, v: Option<Seq<char>>)
    requires
        keys.len() == values.len(),
        keys.no_duplicates(),
        0 <= i < keys.len(),
    ensures
        map_of(keys, values.update(i, v)) == map_of(keys, values).insert(keys[i], v),
    decreases keys.len(),
{
    if i == keys.len() - 1 {
        assert(values.update(i, v).drop_last() =~= values.drop_last());
        assert(!keys.drop_last().contains(keys[i])) by {
            if keys.drop_last().contains(keys[i]) {
                let j = choose|j: int| 0 <= j < keys.drop_last().len() && keys.drop_last()[j] == keys[i];
                assert(keys[j] == keys[i]);
            }
        }
        assert(map_of(keys, values.update(i, v)) =~= map_of(keys, values).insert(keys[i], v));
    } else {
        lemma_map_of_update(keys.drop_last(), values.drop_last(), i, v);
        assert(values.update(i, v).drop_last() =~= values.drop_last().update(i, v));
        assert(keys[i] != keys.last());
        assert(map_of(keys, values.update(i, v)) =~= map_of(keys, values).insert(keys[i], v));
    }
}

impl IconCache {
    /// Keys and icons pair up, and no key is stored twice.
    pub closed spec fn well_formed(&self) -> bool {
        &&& self.keys@.len() == self.icons@.len()
        &&& self.keys.deep_view().no_duplicates()
    }

    /// The cached icons by extension.
    pub closed spec fn icons(&self) -> Map<Seq<char>, Option<Seq<char>>> {
        map_of(self.keys.deep_view(), self.icons.deep_view())
    }

    /// An empty cache.
    pub fn new() -> (cache: IconCache)
        ensures
            cache.well_formed(),
            cache.icons() == Map::<Seq<char>, Option<Seq<char>>>::empty(),
    {
        let cache = IconCache { keys: Vec::new(), icons: Vec::new() };
        assert(cache.keys.deep_view() =~= Seq::<Seq<char>>::empty());
        cache
    }

    /// The cached icon of `key`: `Some` of what was stored, or `None` when nothing was.
    pub fn get(&self, key: &String) -> (res: Option<Option<String>>)
        requires
            self.well_formed(),
        ensures
            match res {
                Some(icon) => self.icons().dom().contains(key@) && self.icons()[key@] == icon.deep_view(),
                None => !self.icons().dom().contains(key@),
            },
    {
        let mut i: usize = 0;
        while i < self.keys.len()
            invariant
                i <= self.keys@.len(),
                self.keys@.len() == self.icons@.len(),
                self.keys.deep_view().no_duplicates(),
                forall|k: int| 0 <= k < i ==> self.keys.deep_view()[k] != key@,
            decreases self.keys@.len() - i,
        {
            if self.keys[i] == *key {
                proof {
                    lemma_map_of_index(self.keys.deep_view(), self.icons.deep_view(), i as int);
                }
                let icon = match &self.icons[i] {
                    Some(text) => Some(text.clone()),
                    None => None,
                };
                return Some(icon);
            }
            i = i + 1;
        }
        proof {
            lemma_map_of_dom(self.keys.deep_view(), self.icons.deep_view(), key@);
        }
        None
    }

    /// Stores `icon` as the icon of `key`, replacing what was stored for it.
    pub fn insert(&mut self, key: String, icon: Option<String>)
        requires
            old(self).well_formed(),
        ensures
            final(self).well_formed(),
            final(self).icons() == old(self).icons().insert(key@, icon.deep_view()),
    {
        let mut i: usize = 0;
        while i < self.keys.len()
            invariant
                i <= self.keys@.len(),
                self.keys@.len() == self.icons@.len(),
                self.keys.deep_view().no_duplicates(),
                self.keys == old(self).keys,
                self.icons == old(self).icons,
                forall|k: int| 0 <= k < i ==> self.keys.deep_view()[k] != key@,
            decreases self.keys@.len() - i,
        {
            if self.keys[i] == key {
                assert(self.keys.deep_view()[i as int] == key@);
                let ghost before = self.icons.deep_view();
                proof {
                    lemma_map_of_update(self.keys.deep_view(), before, i as int, icon.deep_view());
                }
                self.icons.set(i, icon);
                assert(self.icons.deep_view() =~= before.update(i as int, icon.deep_view()));
                return;
            }
            i = i + 1;
        }
        let ghost keys_before = self.keys.deep_view();
        let ghost icons_before = self.icons.deep_view();
        proof {
            lemma_map_of_dom(keys_before, icons_before, key@);
        }
        self.keys.push(key);
        self.icons.push(icon);
        assert(self.keys.deep_view() =~= keys_before.push(key@));
        assert(self.icons.deep_view() =~= icons_before.push(icon.deep_view()));
        assert(self.keys.deep_view().drop_last() =~= keys_before);
        assert(self.icons.deep_view().drop_last() =~= icons_before);
        assert(self.keys.deep_view().last() == key@);
        assert(self.icons.deep_view().last() == icon.deep_view());
        assert(map_of(self.keys.deep_view(), self.icons.deep_view())
            == map_of(keys_before, icons_before).insert(key@, icon.deep_view()));
        assert(self.keys.deep_view().no_duplicates()) by {
            assert forall|a: int, b: int| 0 <= a < b < self.keys.deep_view().len() implies
                self.keys.deep_view()[a] != self.keys.deep_view()[b] by {
                if b == keys_before.len() {
                    assert(self.keys.deep_view()[a] == keys_before[a]);
                }
            }
        }
    }
}

/// Across calls on a cache: a lookup after storing an icon gives that icon, and storing
/// it leaves what a lookup of any other key gives as it was.
pub proof fn lemma_lookup_after_store(
    icons: Map<Seq<char>, Option<Seq<char>>>,
    key: Seq<char>,
    icon: Option<Seq<char>>,
    other: Seq<char>,
)
    ensures
        icons.insert(key, icon).dom().contains(key),
        icons.insert(key, icon)[key] == icon,
        other != key ==> (icons.insert(key, icon).dom().contains(other) <==> icons.dom().contains(other)),
        other != key && icons.dom().contains(other) ==> icons.insert(key, icon)[other] == icons[other],
{
}

/// Across calls for extensions: once the icon of an extension is stored under its key
/// (see `icon_key`), a lookup for any extension with the same lower-cased form finds
/// that icon, and lookups for other keys find what they found before.
pub proof fn lemma_extension_lookup_after_store(
    icons: Map<Seq<char>, Option<Seq<char>>>,
    extension: Seq<char>,
    icon: Option<Seq<char>>,
    other: Seq<char>,
)
    ensures
        lowercase(other) == lowercase(extension) ==> icons.insert(lowercase(extension), icon).dom().contains(lowercase(other))
            && icons.insert(lowercase(extension), icon)[lowercase(other)] == icon,
        lowercase(other) != lowercase(extension) && icons.dom().contains(lowercase(other))
            ==> icons.insert(lowercase(extension), icon)[lowercase(other)] == icons[lowercase(other)],
{
}

/// The key under which the icon of an extension is cached: the extension lower-cased.
pub fn icon_key(extension: &str) -> (key: String)
    ensures
        key@ == lowercase(extension@),
{
    to_lowercase(extension)
}

} // verus!

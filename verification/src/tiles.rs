use vstd::prelude::*;
use vstd::string::StringExecFns;

verus! {

/// The coordinates of a tile; a tile is 1000 by 1000 meters.
#[derive(Debug, Clone, Copy, Hash, PartialEq, Eq, Structural)]
pub struct TileCoordinates {
    pub x: i32,
    pub y: i32,
}

/// The tiles with `x_min <= x <= x_max` and `y_min <= y <= y_max`.
#[derive(Debug, Clone, Copy, Hash, PartialEq, Eq, Structural)]
pub struct TileRegion {
    pub x_min: i32,
    pub x_max: i32,
    pub y_min: i32,
    pub y_max: i32,
}

/// The character of the decimal digit `d`.
pub open spec fn digit_char(d: int) -> char {
    ('0' as int + d) as char
}

/// The decimal digits of `n`, most significant first.
pub open spec fn decimal_digits(n: nat) -> Seq<char>
    decreases n,
{
    if n < 10 {
        seq![digit_char(n as int)]
    } else {
        decimal_digits(n / 10).push(digit_char((n % 10) as int))
    }
}

/// `n` written in decimal, with a leading `-` when negative.
pub open spec fn decimal(n: int) -> Seq<char> {
    if n < 0 {
        seq!['-'] + decimal_digits((-n) as nat)
    } else {
        decimal_digits(n as nat)
    }
}

/// `text` preceded by as many `'0'` as it takes to make it `width` characters long.
pub open spec fn pad_with_zeros(text: Seq<char>, width: nat) -> Seq<char> {
    if text.len() < width {
        Seq::new((width - text.len()) as nat, |i: int| '0') + text
    } else {
        text
    }
}

/// The name of the file that holds the tile at `coordinates`.
pub open spec fn tile_file_name(coordinates: TileCoordinates) -> Seq<char> {
    "LHD_FXX_"@ + pad_with_zeros(decimal(coordinates.x as int), 4) + "_"@ + pad_with_zeros(
        decimal(coordinates.y as int),
        4,
    ) + "_MNS_O_0M50_LAMB93_IGN69.tif"@
}

/// The one-character string of the decimal digit `d`.
fn digit_str(d: u64) -> (r: &'static str)
    requires
        d < 10,
    ensures
        r@ == seq![digit_char(d as int)],
{
    proof {
        reveal_strlit("0");
        reveal_strlit("1");
        reveal_strlit("2");
        reveal_strlit("3");
        reveal_strlit("4");
        reveal_strlit("5");
        reveal_strlit("6");
        reveal_strlit("7");
        reveal_strlit("8");
        reveal_strlit("9");
    }
    match d {
        0 => "0",
        1 => "1",
        2 => "2",
        3 => "3",
        4 => "4",
        5 => "5",
        6 => "6",
        7 => "7",
        8 => "8",
        _ => "9",
    }
}

/// Appends the decimal digits of `n` to `text`.
fn append_digits(text: &mut String, n: u64)
    ensures
        final(text)@ == old(text)@ + decimal_digits(n as nat),
    decreases n,
{
    if n >= 10 {
        append_digits(text, n / 10);
    }
    let digit = digit_str(n % 10);
    text.append(digit);
    proof {
        if n >= 10 {
            assert(old(text)@ + decimal_digits(n as nat) =~= old(text)@ + decimal_digits((n / 10) as nat) + seq![digit_char((n % 10) as int)]);
        } else {
            assert(decimal_digits(n as nat) =~= seq![digit_char((n % 10) as int)]);
        }
    }
}

/// The number of decimal digits of `n`.
fn digit_count(n: u64) -> (r: u64)
    ensures
        r == decimal_digits(n as nat).len(),
        1 <= r <= n + 1,
    decreases n,
{
    if n >= 10 {
        let r = digit_count(n / 10) + 1;
        assert(decimal_digits(n as nat).len() == decimal_digits((n / 10) as nat).len() + 1);
        r
    } else {
        1
    }
}

/// Appends `n`, in decimal and padded with zeros to at least four characters, to `text`.
fn append_padded(text: &mut String, n: i32)
    ensures
        final(text)@ == old(text)@ + pad_with_zeros(decimal(n as int), 4),
{
    let magnitude: u64 = if n < 0 { (-(n as i64)) as u64 } else { n as u64 };
    assert(magnitude <= 0x8000_0000);
    let length = digit_count(magnitude) + if n < 0 { 1u64 } else { 0u64 };
    let ghost start = text@;
    let mut zeros: u64 = 0;
    while zeros + length < 4
        invariant
            zeros + length <= 4 || zeros == 0,
            text@ == start + Seq::new(zeros as nat, |i: int| '0'),
            length <= 0x1_0000_0002,
        decreases 4 - zeros,
    {
        text.append("0");
        proof {
            reveal_strlit("0");
            assert(start + Seq::new((zeros + 1) as nat, |i: int| '0') =~= start + Seq::new(zeros as nat, |i: int| '0') + "0"@);
        }
        zeros = zeros + 1;
    }
    let ghost padded = text@;
    if n < 0 {
        text.append("-");
    }
    append_digits(text, magnitude);
    proof {
        reveal_strlit("-");
        let digits = decimal(n as int);
        assert(digits.len() == length);
        if digits.len() < 4 {
            assert(zeros == 4 - length);
        } else {
            assert(zeros == 0);
        }
        assert(text@ =~= start + pad_with_zeros(digits, 4));
    }
}

/// The name of the file that holds the tile at `coordinates`, such as
/// `LHD_FXX_0651_6863_MNS_O_0M50_LAMB93_IGN69.tif`.
pub fn tile_filename(coordinates: TileCoordinates) -> (r: String)
    ensures
        r@ == tile_file_name(coordinates),
{
    let mut text = String::from_str("LHD_FXX_");
    append_padded(&mut text, coordinates.x);
    text.append("_");
    append_padded(&mut text, coordinates.y);
    text.append("_MNS_O_0M50_LAMB93_IGN69.tif");
    text
}

/// The name under which a tile is written while it downloads.
pub fn temp_filename(filename: &str) -> (r: String)
    ensures
        r@ == "temp_"@ + filename@,
{
    let mut text = String::from_str("temp_");
    text.append(filename);
    text
}

/// The width of a region in tiles; negative when `x_max < x_min - 1`.
pub open spec fn region_width(region: TileRegion) -> int {
    region.x_max - region.x_min + 1
}

/// The height of a region in tiles; negative when `y_max < y_min - 1`.
pub open spec fn region_height(region: TileRegion) -> int {
    region.y_max - region.y_min + 1
}

/// The tiles of a region, column by column: `x` from `x_min` up, and within a column `y` from
/// `y_min` up.
pub open spec fn region_tiles(region: TileRegion) -> Seq<TileCoordinates> {
    if region.x_min > region.x_max || region.y_min > region.y_max {
        Seq::empty()
    } else {
        let h = region_height(region);
        Seq::new(
            (region_width(region) * h) as nat,
            |k: int| TileCoordinates { x: (region.x_min + k / h) as i32, y: (region.y_min + k % h) as i32 },
        )
    }
}

/// The width, the height and their product fit in `i32`.
pub open spec fn region_area_fits(region: TileRegion) -> bool {
    &&& i32::MIN <= region.x_max - region.x_min
    &&& i32::MIN <= region.y_max - region.y_min
    &&& i32::MIN <= region_width(region) <= i32::MAX
    &&& i32::MIN <= region_height(region) <= i32::MAX
    &&& i32::MIN <= region_width(region) * region_height(region) <= i32::MAX
}

impl TileRegion {
    /// The number of tiles in the region, `(x_max - x_min + 1) * (y_max - y_min + 1)`, cast to
    /// `usize`.
    pub fn area(&self) -> (r: usize)
        requires
            region_area_fits(*self),
        ensures
            r == (region_width(*self) * region_height(*self)) as usize,
    {
        ((self.x_max - self.x_min + 1) * (self.y_max - self.y_min + 1)) as usize
    }

    /// The tiles of the region, in the order of [`region_tiles`].
    pub fn coordinates(&self) -> (r: Vec<TileCoordinates>)
        requires
            region_area_fits(*self),
        ensures
            r@ == region_tiles(*self),
    {
        let mut tiles: Vec<TileCoordinates> = Vec::new();
        if self.x_min > self.x_max || self.y_min > self.y_max {
            return tiles;
        }
        let h = self.y_max as i64 - self.y_min as i64 + 1;
        let ghost all = region_tiles(*self);
        let mut x = self.x_min as i64;
        while x <= self.x_max as i64
            invariant
                self.x_min <= x <= self.x_max + 1,
                self.x_min <= self.x_max,
                self.y_min <= self.y_max,
                h == region_height(*self),
                region_area_fits(*self),
                all == region_tiles(*self),
                tiles@ =~= all.take((x - self.x_min) * h),
            decreases self.x_max + 1 - x,
        {
            let mut y = self.y_min as i64;
            while y <= self.y_max as i64
                invariant
                    self.x_min <= x <= self.x_max,
                    self.y_min <= y <= self.y_max + 1,
                    self.y_min <= self.y_max,
                    h == region_height(*self),
                    region_area_fits(*self),
                    all == region_tiles(*self),
                    tiles@ =~= all.take((x - self.x_min) * h + (y - self.y_min)),
                decreases self.y_max + 1 - y,
            {
                let tile = TileCoordinates { x: x as i32, y: y as i32 };
                proof {
                    let k = (x - self.x_min) * h + (y - self.y_min);
                    assert(0 <= k < region_width(*self) * h) by (nonlinear_arith)
                        requires
                            k == (x - self.x_min) * h + (y - self.y_min),
                            0 <= x - self.x_min < region_width(*self),
                            0 <= y - self.y_min < h,
                    ;
                    vstd::arithmetic::div_mod::lemma_fundamental_div_mod_converse(
                        k,
                        h as int,
                        x - self.x_min,
                        y - self.y_min,
                    );
                    assert(all[k] == tile);
                    assert(all.take(k + 1) =~= all.take(k).push(tile));
                }
                tiles.push(tile);
                y = y + 1;
            }
            proof {
                assert((x - self.x_min) * h + (self.y_max + 1 - self.y_min) == (x + 1 - self.x_min)
                    * h) by (nonlinear_arith)
                    requires
                        h == self.y_max - self.y_min + 1,
                ;
            }
            x = x + 1;
        }
        proof {
            assert((x - self.x_min) * h == region_width(*self) * h);
            assert(all.take(region_width(*self) * h) =~= all);
        }
        tiles
    }
}

/// A region with at least one tile holds exactly `area()` tiles, all inside it and all
/// distinct, so that `area()` counts the tiles that `coordinates()` lists.
pub proof fn lemma_region_tiles(region: TileRegion)
    requires
        region_area_fits(region),
        region.x_min <= region.x_max,
        region.y_min <= region.y_max,
    ensures
        region_tiles(region).len() == region_width(region) * region_height(region),
        forall|k: int|
            0 <= k < region_tiles(region).len() ==> region.x_min <= (#[trigger] region_tiles(
                region,
            )[k]).x <= region.x_max && region.y_min <= region_tiles(region)[k].y <= region.y_max,
        forall|k1: int, k2: int|
            0 <= k1 < k2 < region_tiles(region).len() ==> #[trigger] region_tiles(region)[k1]
                != #[trigger] region_tiles(region)[k2],
{
    let w = region_width(region);
    let h = region_height(region);
    let all = region_tiles(region);
    assert(w * h > 0) by (nonlinear_arith)
        requires
            w > 0,
            h > 0,
    ;
    assert forall|k: int| 0 <= k < all.len() implies region.x_min <= (#[trigger] all[k]).x
        <= region.x_max && region.y_min <= all[k].y <= region.y_max by {
        vstd::arithmetic::div_mod::lemma_fundamental_div_mod(k, h);
        assert(0 <= k / h < w) by (nonlinear_arith)
            requires
                k == h * (k / h) + k % h,
                0 <= k % h < h,
                0 <= k < w * h,
                h > 0,
        ;
    }
    assert forall|k1: int, k2: int| 0 <= k1 < k2 < all.len() implies #[trigger] all[k1]
        != #[trigger] all[k2] by {
        vstd::arithmetic::div_mod::lemma_fundamental_div_mod(k1, h);
        vstd::arithmetic::div_mod::lemma_fundamental_div_mod(k2, h);
        assert(0 <= k1 / h < w) by (nonlinear_arith)
            requires
                k1 == h * (k1 / h) + k1 % h,
                0 <= k1 % h < h,
                0 <= k1 < w * h,
                h > 0,
        ;
        assert(0 <= k2 / h < w) by (nonlinear_arith)
            requires
                k2 == h * (k2 / h) + k2 % h,
                0 <= k2 % h < h,
                0 <= k2 < w * h,
                h > 0,
        ;
        if k1 / h == k2 / h && k1 % h == k2 % h {
            assert(k1 == k2);
        }
    }
}

/// What is on disk for one tile: the complete file, and a partially downloaded one.
#[derive(Debug, Clone, Copy, PartialEq, Eq, Structural)]
pub struct TileFiles {
    pub complete: bool,
    pub partial: bool,
}

/// The tiles of a region that still have to be downloaded, and those whose download was
/// interrupted.
pub struct TileAvailability {
    pub total_tiles: usize,
    pub missing_tiles: Vec<TileCoordinates>,
    pub partial_tiles: Vec<TileCoordinates>,
}

/// The tiles of `tiles` whose file is not complete, in order.
pub open spec fn tiles_missing(tiles: Seq<TileCoordinates>, files: Seq<TileFiles>) -> Seq<TileCoordinates>
    decreases tiles.len(),
{
    if tiles.len() == 0 {
        Seq::empty()
    } else {
        let rest = tiles_missing(tiles.drop_last(), files.drop_last());
        if files.last().complete {
            rest
        } else {
            rest.push(tiles.last())
        }
    }
}

/// The tiles of `tiles` that have a partially downloaded file, in order.
pub open spec fn tiles_partial(tiles: Seq<TileCoordinates>, files: Seq<TileFiles>) -> Seq<TileCoordinates>
    decreases tiles.len(),
{
    if tiles.len() == 0 {
        Seq::empty()
    } else {
        let rest = tiles_partial(tiles.drop_last(), files.drop_last());
        if files.last().partial {
            rest.push(tiles.last())
        } else {
            rest
        }
    }
}

/// Sorts the tiles of `region` by what is on disk: `files[k]` tells what exists for the
/// `k`-th tile of `region.coordinates()`.
pub fn check_tile_availability(region: TileRegion, files: &Vec<TileFiles>) -> (r: TileAvailability)
    requires
        region_area_fits(region),
        files.len() == region_tiles(region).len(),
    ensures
        r.total_tiles == (region_width(region) * region_height(region)) as usize,
        r.missing_tiles@ == tiles_missing(region_tiles(region), files@),
        r.partial_tiles@ == tiles_partial(region_tiles(region), files@),
{
    let coordinates = region.coordinates();
    let mut missing_tiles: Vec<TileCoordinates> = Vec::new();
    let mut partial_tiles: Vec<TileCoordinates> = Vec::new();
    let mut k: usize = 0;
    while k < coordinates.len()
        invariant
            coordinates@ == region_tiles(region),
            files.len() == coordinates.len(),
            k <= coordinates.len(),
            missing_tiles@ == tiles_missing(coordinates@.take(k as int), files@.take(k as int)),
            partial_tiles@ == tiles_partial(coordinates@.take(k as int), files@.take(k as int)),
        decreases coordinates.len() - k,
    {
        proof {
            assert(coordinates@.take(k + 1).drop_last() =~= coordinates@.take(k as int));
            assert(files@.take(k + 1).drop_last() =~= files@.take(k as int));
        }
        if files[k].partial {
            partial_tiles.push(coordinates[k]);
        }
        if !files[k].complete {
            missing_tiles.push(coordinates[k]);
        }
        k = k + 1;
    }
    proof {
        assert(coordinates@.take(k as int) =~= coordinates@);
        assert(files@.take(k as int) =~= files@);
    }
    TileAvailability { total_tiles: region.area(), missing_tiles, partial_tiles }
}

/// The text that `humansize::format_size` gives for `bytes` with the `humansize::DECIMAL`
/// options.
pub uninterp spec fn decimal_size_text(bytes: u64) -> Seq<char>;

/// Calls `humansize::format_size(bytes, humansize::DECIMAL)`: `bytes` in units of 1000 with at
/// most two decimals, such as `32 MB`. The contract only names the result.
#[verifier::external_body]
fn format_size_decimal(bytes: u64) -> (r: String)
    ensures
        r@ == decimal_size_text(bytes),
{
    humansize::format_size(bytes, humansize::DECIMAL)
}

/// The estimated size of a download of `missing_tiles` tiles: 16 MB each.
pub fn estimated_download_bytes(missing_tiles: usize) -> (r: u64)
    requires
        missing_tiles * 16_000_000 <= u64::MAX,
    ensures
        r == missing_tiles * 16_000_000,
{
    (missing_tiles as u64) * 16_000_000
}

/// The estimated size of a download of `missing_tiles` tiles, as text for the user.
pub fn estimated_download_size(missing_tiles: usize) -> (r: String)
    requires
        missing_tiles * 16_000_000 <= u64::MAX,
    ensures
        r@ == decimal_size_text((missing_tiles * 16_000_000) as u64),
{
    format_size_decimal(estimated_download_bytes(missing_tiles))
}

} // verus!

verus! {

/// `ch` is one of the decimal digits `'0'` to `'9'`.
pub open spec fn is_digit(ch: char) -> bool {
    '0' <= ch <= '9'
}

/// The number that a string of decimal digits reads as, most significant digit first.
pub open spec fn digits_value(text: Seq<char>) -> int
    decreases text.len(),
{
    if text.len() == 0 {
        0
    } else {
        digits_value(text.drop_last()) * 10 + (text.last() as int - '0' as int)
    }
}

/// `decimal_digits(n)` is the decimal representation of `n`: it is made of digits only, reads
/// back as `n`, and has no leading zero (a single `'0'` for zero).
pub proof fn lemma_decimal_digits(n: nat)
    ensures
        decimal_digits(n).len() >= 1,
        forall|i: int| 0 <= i < decimal_digits(n).len() ==> is_digit(#[trigger] decimal_digits(n)[i]),
        digits_value(decimal_digits(n)) == n,
        n > 0 ==> decimal_digits(n)[0] != '0',
        n == 0 ==> decimal_digits(n) == seq!['0'],
    decreases n,
{
    let s = decimal_digits(n);
    if n < 10 {
        assert(s.drop_last() =~= Seq::<char>::empty());
        assert(digits_value(Seq::<char>::empty()) == 0);
        assert(digit_char(n as int) as int == '0' as int + n);
        assert(s.last() == digit_char(n as int));
        assert(digits_value(s) == digits_value(s.drop_last()) * 10 + (s.last() as int - '0' as int));
    } else {
        let q = n / 10;
        lemma_decimal_digits(q);
        assert(s.drop_last() =~= decimal_digits(q));
        assert(digit_char((n % 10) as int) as int == '0' as int + n % 10);
        vstd::arithmetic::div_mod::lemma_fundamental_div_mod(n as int, 10);
        assert(s.last() == digit_char((n % 10) as int));
        assert(digits_value(s) == q * 10 + n % 10);
        assert(s[0] == decimal_digits(q)[0]);
        assert forall|i: int| 0 <= i < s.len() implies is_digit(#[trigger] s[i]) by {
            if i < s.len() - 1 {
                assert(s[i] == decimal_digits(q)[i]);
            }
        }
    }
}

/// Leading zeros do not change the number that a string of digits reads as.
proof fn lemma_leading_zeros(zeros: nat, text: Seq<char>)
    ensures
        digits_value(Seq::new(zeros, |i: int| '0') + text) == digits_value(text),
    decreases text.len(),
{
    let z = Seq::new(zeros, |i: int| '0');
    if text.len() == 0 {
        assert(z + text =~= z);
        lemma_zeros_value(zeros);
    } else {
        lemma_leading_zeros(zeros, text.drop_last());
        assert((z + text).drop_last() =~= z + text.drop_last());
    }
}

proof fn lemma_zeros_value(zeros: nat)
    ensures
        digits_value(Seq::new(zeros, |i: int| '0')) == 0,
    decreases zeros,
{
    if zeros > 0 {
        lemma_zeros_value((zeros - 1) as nat);
        assert(Seq::new(zeros, |i: int| '0').drop_last() =~= Seq::new((zeros - 1) as nat, |i: int| '0'));
    }
}

/// The number written in a tile file name: `decimal(n)` padded with zeros to `width`
/// characters is at least `width` characters long and ends with `decimal(n)`, preceded only by
/// zeros. For `n >= 0` it is made of digits only and reads back as `n`; for `n < 0` it is a
/// `'-'` followed by digits that read back as `-n`.
pub proof fn lemma_padded_decimal(n: int, width: nat)
    ensures
        ({
            let d = decimal(n);
            let p = pad_with_zeros(d, width);
            let z = (p.len() - d.len()) as int;
            &&& p.len() == if d.len() < width { width as int } else { d.len() as int }
            &&& p.subrange(z, p.len() as int) == d
            &&& forall|i: int| 0 <= i < z ==> #[trigger] p[i] == '0'
            &&& n >= 0 ==> (forall|i: int| 0 <= i < p.len() ==> is_digit(#[trigger] p[i]))
                && digits_value(p) == n
            &&& n < 0 ==> d[0] == '-' && (forall|i: int|
                1 <= i < d.len() ==> is_digit(#[trigger] d[i])) && digits_value(
                d.subrange(1, d.len() as int),
            ) == -n
        }),
{
    let d = decimal(n);
    let p = pad_with_zeros(d, width);
    if n >= 0 {
        lemma_decimal_digits(n as nat);
    } else {
        lemma_decimal_digits((-n) as nat);
        assert(d.subrange(1, d.len() as int) =~= decimal_digits((-n) as nat));
        assert forall|i: int| 1 <= i < d.len() implies is_digit(#[trigger] d[i]) by {
            assert(d[i] == decimal_digits((-n) as nat)[i - 1]);
        }
    }
    if d.len() < width {
        let zeros = (width - d.len()) as nat;
        assert(p.subrange(zeros as int, p.len() as int) =~= d);
        if n >= 0 {
            lemma_leading_zeros(zeros, d);
        }
    } else {
        assert(p.subrange(0, p.len() as int) =~= d);
    }
}

} // verus!

verus! {

/// The tile `c` lies in `region`.
pub open spec fn in_region(region: TileRegion, c: TileCoordinates) -> bool {
    region.x_min <= c.x <= region.x_max && region.y_min <= c.y <= region.y_max
}

/// The position of the tile `c` of `region` when the tiles are counted column by column:
/// `x` from `x_min` up, and within a column `y` from `y_min` up.
pub open spec fn tile_index(region: TileRegion, c: TileCoordinates) -> int {
    (c.x - region.x_min) * region_height(region) + (c.y - region.y_min)
}

/// Tile number `k` of the region sits at position `k`, and each tile of the region is listed
/// at its position.
proof fn lemma_region_index(region: TileRegion)
    requires
        region_area_fits(region),
    ensures
        forall|k: int|
            0 <= k < region_tiles(region).len() ==> in_region(region, #[trigger] region_tiles(region)[k])
                && tile_index(region, region_tiles(region)[k]) == k,
        forall|c: TileCoordinates|
            #[trigger] in_region(region, c) ==> 0 <= tile_index(region, c) < region_tiles(region).len()
                && region_tiles(region)[tile_index(region, c)] == c,
{
    let all = region_tiles(region);
    let w = region_width(region);
    let h = region_height(region);
    if region.x_min <= region.x_max && region.y_min <= region.y_max {
        lemma_region_tiles(region);
        assert forall|k: int| 0 <= k < all.len() implies in_region(region, #[trigger] all[k])
            && tile_index(region, all[k]) == k by {
            vstd::arithmetic::div_mod::lemma_fundamental_div_mod(k, h);
            assert(0 <= k / h < w) by (nonlinear_arith)
                requires
                    k == h * (k / h) + k % h,
                    0 <= k % h < h,
                    0 <= k < w * h,
                    h > 0,
            ;
            assert(all[k].x == region.x_min + k / h);
            assert(all[k].y == region.y_min + k % h);
            assert((k / h) * h == h * (k / h)) by (nonlinear_arith);
        }
        assert forall|c: TileCoordinates| #[trigger] in_region(region, c) implies 0 <= tile_index(
            region,
            c,
        ) < all.len() && all[tile_index(region, c)] == c by {
            let k = tile_index(region, c);
            assert(0 <= k < w * h) by (nonlinear_arith)
                requires
                    k == (c.x - region.x_min) * h + (c.y - region.y_min),
                    0 <= c.x - region.x_min < w,
                    0 <= c.y - region.y_min < h,
            ;
            vstd::arithmetic::div_mod::lemma_fundamental_div_mod_converse(
                k,
                h,
                c.x - region.x_min,
                c.y - region.y_min,
            );
        }
    } else {
        assert forall|c: TileCoordinates| #[trigger] in_region(region, c) implies 0 <= tile_index(
            region,
            c,
        ) < all.len() && all[tile_index(region, c)] == c by {}
    }
}

proof fn lemma_missing_positions(
    tiles: Seq<TileCoordinates>,
    files: Seq<TileFiles>,
    f: spec_fn(TileCoordinates) -> int,
)
    requires
        tiles.len() == files.len(),
        forall|k: int| 0 <= k < tiles.len() ==> f(#[trigger] tiles[k]) == k,
    ensures
        ({
            let m = tiles_missing(tiles, files);
            &&& forall|j: int|
                0 <= j < m.len() ==> 0 <= f(#[trigger] m[j]) < tiles.len() && tiles[f(m[j])] == m[j]
                    && !files[f(m[j])].complete
            &&& forall|k: int| 0 <= k < tiles.len() && !files[k].complete ==> m.contains(#[trigger] tiles[k])
            &&& forall|i: int, j: int| 0 <= i < j < m.len() ==> f(#[trigger] m[i]) < f(#[trigger] m[j])
        }),
    decreases tiles.len(),
{
    if tiles.len() > 0 {
        let n = tiles.len() - 1;
        let t0 = tiles.drop_last();
        let f0 = files.drop_last();
        assert forall|k: int| 0 <= k < t0.len() implies f(#[trigger] t0[k]) == k by {
            assert(t0[k] == tiles[k]);
        }
        lemma_missing_positions(t0, f0, f);
        let rest = tiles_missing(t0, f0);
        let m = tiles_missing(tiles, files);
        assert(f(tiles[n]) == n);
        assert forall|k: int| 0 <= k < tiles.len() && !files[k].complete implies m.contains(
            #[trigger] tiles[k],
        ) by {
            if k < n {
                assert(t0[k] == tiles[k]);
                assert(f0[k] == files[k]);
                assert(rest.contains(t0[k]));
                let j = choose|j: int| 0 <= j < rest.len() && rest[j] == t0[k];
                assert(m[j] == rest[j]);
            } else {
                assert(m[m.len() - 1] == tiles[n]);
            }
        }
        assert forall|j: int| 0 <= j < m.len() implies 0 <= f(#[trigger] m[j]) < tiles.len()
            && tiles[f(m[j])] == m[j] && !files[f(m[j])].complete by {
            if j < rest.len() {
                assert(m[j] == rest[j]);
                assert(t0[f(rest[j])] == tiles[f(rest[j])]);
                assert(f0[f(rest[j])] == files[f(rest[j])]);
            }
        }
        assert forall|i: int, j: int| 0 <= i < j < m.len() implies f(#[trigger] m[i]) < f(
            #[trigger] m[j],
        ) by {
            assert(m[i] == rest[i]);
            if j < rest.len() {
                assert(m[j] == rest[j]);
            }
        }
    }
}

proof fn lemma_partial_positions(
    tiles: Seq<TileCoordinates>,
    files: Seq<TileFiles>,
    f: spec_fn(TileCoordinates) -> int,
)
    requires
        tiles.len() == files.len(),
        forall|k: int| 0 <= k < tiles.len() ==> f(#[trigger] tiles[k]) == k,
    ensures
        ({
            let m = tiles_partial(tiles, files);
            &&& forall|j: int|
                0 <= j < m.len() ==> 0 <= f(#[trigger] m[j]) < tiles.len() && tiles[f(m[j])] == m[j]
                    && files[f(m[j])].partial
            &&& forall|k: int| 0 <= k < tiles.len() && files[k].partial ==> m.contains(#[trigger] tiles[k])
            &&& forall|i: int, j: int| 0 <= i < j < m.len() ==> f(#[trigger] m[i]) < f(#[trigger] m[j])
        }),
    decreases tiles.len(),
{
    if tiles.len() > 0 {
        let n = tiles.len() - 1;
        let t0 = tiles.drop_last();
        let f0 = files.drop_last();
        assert forall|k: int| 0 <= k < t0.len() implies f(#[trigger] t0[k]) == k by {
            assert(t0[k] == tiles[k]);
        }
        lemma_partial_positions(t0, f0, f);
        let rest = tiles_partial(t0, f0);
        let m = tiles_partial(tiles, files);
        assert(f(tiles[n]) == n);
        assert forall|k: int| 0 <= k < tiles.len() && files[k].partial implies m.contains(
            #[trigger] tiles[k],
        ) by {
            if k < n {
                assert(t0[k] == tiles[k]);
                assert(f0[k] == files[k]);
                assert(rest.contains(t0[k]));
                let j = choose|j: int| 0 <= j < rest.len() && rest[j] == t0[k];
                assert(m[j] == rest[j]);
            } else {
                assert(m[m.len() - 1] == tiles[n]);
            }
        }
        assert forall|j: int| 0 <= j < m.len() implies 0 <= f(#[trigger] m[j]) < tiles.len()
            && tiles[f(m[j])] == m[j] && files[f(m[j])].partial by {
            if j < rest.len() {
                assert(m[j] == rest[j]);
                assert(t0[f(rest[j])] == tiles[f(rest[j])]);
                assert(f0[f(rest[j])] == files[f(rest[j])]);
            }
        }
        assert forall|i: int, j: int| 0 <= i < j < m.len() implies f(#[trigger] m[i]) < f(
            #[trigger] m[j],
        ) by {
            assert(m[i] == rest[i]);
            if j < rest.len() {
                assert(m[j] == rest[j]);
            }
        }
    }
}

/// What `check_tile_availability(region, files)` reports, stated tile by tile: `files[k]`
/// describes the tile at position `k` of the region (see [`tile_index`]). A tile is among the
/// missing tiles exactly when it lies in the region and its complete file is absent, and among
/// the partial tiles exactly when it lies in the region and a partial file exists. Both lists
/// are in increasing order of position, so no tile appears twice.
pub proof fn lemma_availability(region: TileRegion, files: Seq<TileFiles>)
    requires
        region_area_fits(region),
        files.len() == region_tiles(region).len(),
    ensures
        ({
            let m = tiles_missing(region_tiles(region), files);
            let p = tiles_partial(region_tiles(region), files);
            &&& forall|c: TileCoordinates|
                #[trigger] m.contains(c) <==> in_region(region, c) && !files[tile_index(
                    region,
                    c,
                )].complete
            &&& forall|c: TileCoordinates|
                #[trigger] p.contains(c) <==> in_region(region, c) && files[tile_index(
                    region,
                    c,
                )].partial
            &&& forall|i: int, j: int|
                0 <= i < j < m.len() ==> tile_index(region, #[trigger] m[i]) < tile_index(
                    region,
                    #[trigger] m[j],
                )
            &&& forall|i: int, j: int|
                0 <= i < j < p.len() ==> tile_index(region, #[trigger] p[i]) < tile_index(
                    region,
                    #[trigger] p[j],
                )
        }),
{
    let tiles = region_tiles(region);
    let f = |c: TileCoordinates| tile_index(region, c);
    lemma_region_index(region);
    assert forall|k: int| 0 <= k < tiles.len() implies f(#[trigger] tiles[k]) == k by {}
    lemma_missing_positions(tiles, files, f);
    lemma_partial_positions(tiles, files, f);
    let m = tiles_missing(tiles, files);
    let p = tiles_partial(tiles, files);
    assert forall|c: TileCoordinates| #[trigger] m.contains(c) <==> in_region(region, c)
        && !files[tile_index(region, c)].complete by {
        if m.contains(c) {
            let j = choose|j: int| 0 <= j < m.len() && m[j] == c;
            assert(tiles[f(m[j])] == m[j]);
            assert(in_region(region, tiles[f(m[j])]));
        }
        if in_region(region, c) && !files[tile_index(region, c)].complete {
            assert(tiles[tile_index(region, c)] == c);
        }
    }
    assert forall|c: TileCoordinates| #[trigger] p.contains(c) <==> in_region(region, c)
        && files[tile_index(region, c)].partial by {
        if p.contains(c) {
            let j = choose|j: int| 0 <= j < p.len() && p[j] == c;
            assert(tiles[f(p[j])] == p[j]);
            assert(in_region(region, tiles[f(p[j])]));
        }
        if in_region(region, c) && files[tile_index(region, c)].partial {
            assert(tiles[tile_index(region, c)] == c);
        }
    }
}

} // verus!

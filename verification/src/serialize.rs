//! Values as rows of 32-bit words, for sending them elsewhere.
//!
//! A value of fixed size is written as its words. An array is written as
//! the number of its items and then the items, one after the other.

use crate::entity::EntityId;
use crate::error::Error;
use crate::geometry::{Aabb3, Point3, Vector3};
use crate::terrain_block::Triangle;
use vstd::arithmetic::div_mod::lemma_fundamental_div_mod_converse;
use vstd::bytes::{
    lemma_auto_spec_u32_to_from_le_bytes,
    spec_u32_from_le_bytes,
    spec_u32_to_le_bytes,
    u32_from_le_bytes,
    u32_to_le_bytes,
};
use vstd::prelude::*;
use vstd::slice::slice_subrange;

verus! {

/// A value of fixed size that can be written as words and read back.
pub trait Flatten: Sized {
    /// The number of words that one value takes.
    spec fn width() -> nat;

    /// The value as words.
    spec fn words(self) -> Seq<u32>;

    /// The value that the words stand for.
    spec fn of_words(words: Seq<u32>) -> Self;

    /// A value takes at least one word.
    proof fn lemma_width()
        ensures
            Self::width() > 0,
    ;

    /// Writing a value and reading it gives the value.
    proof fn lemma_words(self)
        ensures
            self.words().len() == Self::width(),
            Self::of_words(self.words()) == self,
    ;

    /// Reading words and writing the value gives the words.
    proof fn lemma_of_words(words: Seq<u32>)
        requires
            words.len() == Self::width(),
        ensures
            Self::of_words(words).words() == words,
    ;

    /// Computes [`Flatten::width`].
    fn size() -> (n: usize)
        ensures
            n == Self::width(),
            0 < n <= 16,
    ;

    /// Appends the value to `dest`.
    fn emit(&self, dest: &mut Vec<u32>)
        ensures
            final(dest)@ == old(dest)@ + self.words(),
    ;

    /// Reads the value that starts at place `at` of `source`.
    fn read(source: &Vec<u32>, at: usize) -> (v: Self)
        requires
            at + Self::width() <= source.len(),
        ensures
            v == Self::of_words(source@.subrange(at as int, at + Self::width())),
    ;
}

impl Flatten for EntityId {
    open spec fn width() -> nat {
        1
    }

    open spec fn words(self) -> Seq<u32> {
        seq![self.0]
    }

    open spec fn of_words(words: Seq<u32>) -> Self {
        EntityId(words[0])
    }

    proof fn lemma_width() {
    }

    proof fn lemma_words(self) {
    }

    proof fn lemma_of_words(words: Seq<u32>) {
        assert(Self::of_words(words).words() =~= words);
    }

    fn size() -> (n: usize) {
        1
    }

    fn emit(&self, dest: &mut Vec<u32>) {
        dest.push(self.0);
        assert(dest@ =~= old(dest)@ + self.words());
    }

    fn read(source: &Vec<u32>, at: usize) -> (v: Self) {
        EntityId(source[at])
    }
}

/// The three coordinates of a point.
pub open spec fn point_words(p: Point3<u32>) -> Seq<u32> {
    seq![p.x, p.y, p.z]
}

/// The point whose coordinates start at place `at` of `words`.
pub open spec fn point_at(words: Seq<u32>, at: int) -> Point3<u32> {
    Point3 { x: words[at], y: words[at + 1], z: words[at + 2] }
}

/// The three components of a displacement.
pub open spec fn vector_words(v: Vector3<u32>) -> Seq<u32> {
    seq![v.x, v.y, v.z]
}

/// The displacement whose components start at place `at` of `words`.
pub open spec fn vector_at(words: Seq<u32>, at: int) -> Vector3<u32> {
    Vector3 { x: words[at], y: words[at + 1], z: words[at + 2] }
}

impl Flatten for Triangle<Point3<u32>> {
    open spec fn width() -> nat {
        9
    }

    open spec fn words(self) -> Seq<u32> {
        point_words(self.v1) + point_words(self.v2) + point_words(self.v3)
    }

    open spec fn of_words(words: Seq<u32>) -> Self {
        Triangle { v1: point_at(words, 0), v2: point_at(words, 3), v3: point_at(words, 6) }
    }

    proof fn lemma_width() {
    }

    proof fn lemma_words(self) {
    }

    proof fn lemma_of_words(words: Seq<u32>) {
        assert(Self::of_words(words).words() =~= words);
    }

    fn size() -> (n: usize) {
        9
    }

    fn emit(&self, dest: &mut Vec<u32>) {
        dest.push(self.v1.x);
        dest.push(self.v1.y);
        dest.push(self.v1.z);
        dest.push(self.v2.x);
        dest.push(self.v2.y);
        dest.push(self.v2.z);
        dest.push(self.v3.x);
        dest.push(self.v3.y);
        dest.push(self.v3.z);
        assert(dest@ =~= old(dest)@ + self.words());
    }

    fn read(source: &Vec<u32>, at: usize) -> (v: Self) {
        Triangle {
            v1: Point3 { x: source[at], y: source[at + 1], z: source[at + 2] },
            v2: Point3 { x: source[at + 3], y: source[at + 4], z: source[at + 5] },
            v3: Point3 { x: source[at + 6], y: source[at + 7], z: source[at + 8] },
        }
    }
}

impl Flatten for Triangle<Vector3<u32>> {
    open spec fn width() -> nat {
        9
    }

    open spec fn words(self) -> Seq<u32> {
        vector_words(self.v1) + vector_words(self.v2) + vector_words(self.v3)
    }

    open spec fn of_words(words: Seq<u32>) -> Self {
        Triangle { v1: vector_at(words, 0), v2: vector_at(words, 3), v3: vector_at(words, 6) }
    }

    proof fn lemma_width() {
    }

    proof fn lemma_words(self) {
    }

    proof fn lemma_of_words(words: Seq<u32>) {
        assert(Self::of_words(words).words() =~= words);
    }

    fn size() -> (n: usize) {
        9
    }

    fn emit(&self, dest: &mut Vec<u32>) {
        dest.push(self.v1.x);
        dest.push(self.v1.y);
        dest.push(self.v1.z);
        dest.push(self.v2.x);
        dest.push(self.v2.y);
        dest.push(self.v2.z);
        dest.push(self.v3.x);
        dest.push(self.v3.y);
        dest.push(self.v3.z);
        assert(dest@ =~= old(dest)@ + self.words());
    }

    fn read(source: &Vec<u32>, at: usize) -> (v: Self) {
        Triangle {
            v1: Vector3 { x: source[at], y: source[at + 1], z: source[at + 2] },
            v2: Vector3 { x: source[at + 3], y: source[at + 4], z: source[at + 5] },
            v3: Vector3 { x: source[at + 6], y: source[at + 7], z: source[at + 8] },
        }
    }
}

impl Flatten for (EntityId, Aabb3<u32>) {
    open spec fn width() -> nat {
        7
    }

    open spec fn words(self) -> Seq<u32> {
        seq![self.0.0] + point_words(self.1.min) + point_words(self.1.max)
    }

    open spec fn of_words(words: Seq<u32>) -> Self {
        (EntityId(words[0]), Aabb3 { min: point_at(words, 1), max: point_at(words, 4) })
    }

    proof fn lemma_width() {
    }

    proof fn lemma_words(self) {
    }

    proof fn lemma_of_words(words: Seq<u32>) {
        assert(Self::of_words(words).words() =~= words);
    }

    fn size() -> (n: usize) {
        7
    }

    fn emit(&self, dest: &mut Vec<u32>) {
        dest.push(self.0.0);
        dest.push(self.1.min.x);
        dest.push(self.1.min.y);
        dest.push(self.1.min.z);
        dest.push(self.1.max.x);
        dest.push(self.1.max.y);
        dest.push(self.1.max.z);
        assert(dest@ =~= old(dest)@ + self.words());
    }

    fn read(source: &Vec<u32>, at: usize) -> (v: Self) {
        (
            EntityId(source[at]),
            Aabb3 {
                min: Point3 { x: source[at + 1], y: source[at + 2], z: source[at + 3] },
                max: Point3 { x: source[at + 4], y: source[at + 5], z: source[at + 6] },
            },
        )
    }
}

/// The items of an array as words, one item after the other.
pub open spec fn items_words<T: Flatten>(items: Seq<T>) -> Seq<u32> {
    Seq::new(
        items.len() * T::width(),
        |j: int| items[j / (T::width() as int)].words()[j % (T::width() as int)],
    )
}

/// An array as words: the number of its items, and then the items.
pub open spec fn array_words<T: Flatten>(items: Seq<T>) -> Seq<u32> {
    seq![items.len() as u32] + items_words(items)
}

/// The item of an array that starts at place `at` of `source`: the first
/// one for `i` = 0.
pub open spec fn item_at<T: Flatten>(source: Seq<u32>, at: int, i: int) -> T {
    T::of_words(source.subrange(at + 1 + i * T::width(), at + 1 + (i + 1) * T::width()))
}

/// The array that starts at place `at` of `source`, and the place after
/// it; nothing where `source` ends before the array does.
pub open spec fn array_at<T: Flatten>(source: Seq<u32>, at: int) -> Option<(Seq<T>, int)> {
    if 0 <= at < source.len() && at + 1 + source[at] * T::width() <= source.len() {
        Some(
            (
                Seq::new(source[at] as nat, |i: int| item_at::<T>(source, at, i)),
                at + 1 + source[at] * T::width(),
            ),
        )
    } else {
        None
    }
}

/// Word `k` of item `i` stands at place `i * w + k` of the items' words.
proof fn lemma_place(i: int, k: int, w: int)
    requires
        0 <= i,
        0 <= k < w,
    ensures
        (i * w + k) / w == i,
        (i * w + k) % w == k,
        0 <= i * w,
        (i + 1) * w == i * w + w,
{
    lemma_fundamental_div_mod_converse(i * w + k, w, i, k);
    assert(0 <= i * w && (i + 1) * w == i * w + w) by (nonlinear_arith)
        requires
            0 <= i,
            0 < w,
    ;
}

/// The words of item `i` stand in a row among the words of the items.
proof fn lemma_items_words<T: Flatten>(items: Seq<T>, i: int)
    requires
        0 <= i < items.len(),
    ensures
        items_words(items).len() == items.len() * T::width(),
        (i + 1) * T::width() <= items.len() * T::width(),
        items_words(items).subrange(i * T::width(), (i + 1) * T::width()) == items[i].words(),
{
    let w = T::width() as int;
    T::lemma_width();
    items[i].lemma_words();
    lemma_place(i, 0, w);
    assert((i + 1) * w <= items.len() * w) by (nonlinear_arith)
        requires
            i + 1 <= items.len(),
            0 < w,
    ;
    let part = items_words(items).subrange(i * w, (i + 1) * w);
    assert forall|k: int| 0 <= k < w implies part[k] == items[i].words()[k] by {
        lemma_place(i, k, w);
    }
    assert(part =~= items[i].words());
}

/// The array that starts where an array was written is that array.
pub proof fn lemma_array_round_trip<T: Flatten>(before: Seq<u32>, items: Seq<T>, after: Seq<u32>)
    requires
        items.len() <= u32::MAX,
    ensures
        array_words(items).len() == 1 + items.len() * T::width(),
        array_at::<T>(before + array_words(items) + after, before.len() as int) == Some(
            (items, (before.len() + array_words(items).len()) as int),
        ),
{
    let w = T::width() as int;
    T::lemma_width();
    let source = before + array_words(items) + after;
    let at = before.len() as int;
    assert(0 <= items.len() * w) by (nonlinear_arith)
        requires
            0 <= items.len(),
            0 <= w,
    ;
    assert(source[at] == items.len() as u32);
    let read = Seq::new(source[at] as nat, |i: int| item_at::<T>(source, at, i));
    assert forall|i: int| 0 <= i < items.len() implies read[i] == items[i] by {
        lemma_items_words(items, i);
        lemma_place(i, 0, w);
        assert(source.subrange(at + 1 + i * w, at + 1 + (i + 1) * w) =~= items_words(
            items,
        ).subrange(i * w, (i + 1) * w));
        items[i].lemma_words();
    }
    assert(read =~= items);
}

/// Where an array starts, its words stand.
pub proof fn lemma_array_at_words<T: Flatten>(source: Seq<u32>, at: int)
    requires
        array_at::<T>(source, at) is Some,
    ensures
        ({
            let (items, next) = array_at::<T>(source, at)->0;
            &&& at < next <= source.len()
            &&& source.subrange(at, next) == array_words(items)
        }),
{
    let w = T::width() as int;
    T::lemma_width();
    let (items, next) = array_at::<T>(source, at)->0;
    let n = source[at] as int;
    assert(0 <= n * w) by (nonlinear_arith)
        requires
            0 <= n,
            0 <= w,
    ;
    let written = array_words(items);
    let part = source.subrange(at, next);
    assert(written.len() == part.len());
    assert forall|j: int| 0 <= j < part.len() implies part[j] == written[j] by {
        if j > 0 {
            let p = j - 1;
            let i = p / w;
            let k = p % w;
            vstd::arithmetic::div_mod::lemma_fundamental_div_mod(p, w);
            assert(0 <= i < n) by (nonlinear_arith)
                requires
                    p == w * i + k,
                    0 <= k < w,
                    0 <= p < n * w,
            ;
            lemma_place(i, k, w);
            assert(p == i * w + k) by (nonlinear_arith)
                requires
                    p == w * i + k,
            ;
            assert((i + 1) * w <= n * w) by (nonlinear_arith)
                requires
                    i + 1 <= n,
                    0 < w,
            ;
            let chunk = source.subrange(at + 1 + i * w, at + 1 + (i + 1) * w);
            T::lemma_of_words(chunk);
            assert(items[i] == T::of_words(chunk));
            assert(items[i].words()[k] == chunk[k]);
            assert(written[j] == items_words(items)[p]);
        }
    }
    assert(part =~= written);
}

/// The words of an array with one more item are the words of the array
/// and then the words of the item.
proof fn lemma_items_words_push<T: Flatten>(items: Seq<T>, item: T)
    ensures
        items_words(items.push(item)) == items_words(items) + item.words(),
{
    let w = T::width() as int;
    let n = items.len() as int;
    T::lemma_width();
    item.lemma_words();
    lemma_place(n, 0, w);
    let longer = items_words(items.push(item));
    let joined = items_words(items) + item.words();
    assert(longer.len() == joined.len());
    assert forall|j: int| 0 <= j < longer.len() implies longer[j] == joined[j] by {
        let i = j / w;
        let k = j % w;
        vstd::arithmetic::div_mod::lemma_fundamental_div_mod(j, w);
        assert(j == i * w + k) by (nonlinear_arith)
            requires
                j == w * i + k,
        ;
        if j < n * w {
            assert(0 <= i < n) by (nonlinear_arith)
                requires
                    j == w * i + k,
                    0 <= k < w,
                    0 <= j < n * w,
            ;
        } else {
            assert(i == n) by (nonlinear_arith)
                requires
                    j == w * i + k,
                    0 <= k < w,
                    n * w <= j < n * w + w,
            ;
        }
    }
    assert(longer =~= joined);
}

/// Appends an array to `dest`.
pub fn emit_array<T: Flatten>(items: &Vec<T>, dest: &mut Vec<u32>)
    requires
        items@.len() <= u32::MAX,
    ensures
        final(dest)@ == old(dest)@ + array_words(items@),
{
    dest.push(items.len() as u32);
    let mut i: usize = 0;
    proof {
        assert(items_words(items@.take(0)) =~= Seq::<u32>::empty());
    }
    while i < items.len()
        invariant
            i <= items@.len(),
            items@.len() <= u32::MAX,
            dest@ == old(dest)@ + seq![items@.len() as u32] + items_words(items@.take(i as int)),
        decreases items@.len() - i,
    {
        items[i].emit(dest);
        proof {
            lemma_items_words_push(items@.take(i as int), items@[i as int]);
            assert(items@.take(i + 1) =~= items@.take(i as int).push(items@[i as int]));
            assert(dest@ =~= old(dest)@ + seq![items@.len() as u32] + items_words(
                items@.take(i + 1),
            ));
        }
        i = i + 1;
    }
    proof {
        assert(items@.take(i as int) =~= items@);
        assert(dest@ =~= old(dest)@ + array_words(items@));
    }
}

/// Reads the array that starts at place `at` of `source`. Returns it with
/// the place after it, or nothing where `source` ends before the array.
pub fn read_array<T: Flatten>(source: &Vec<u32>, at: usize) -> (r: Option<(Vec<T>, usize)>)
    ensures
        match r {
            Some((items, next)) => array_at::<T>(source@, at as int) == Some(
                (items@, next as int),
            ),
            None => array_at::<T>(source@, at as int) is None,
        },
{
    if at >= source.len() {
        return None;
    }
    let n: usize = source[at] as usize;
    let w: usize = T::size();
    let left: usize = source.len() - at - 1;
    if n > left / w {
        proof {
            vstd::arithmetic::div_mod::lemma_fundamental_div_mod(left as int, w as int);
            assert(n * w > left) by (nonlinear_arith)
                requires
                    n >= left / w + 1,
                    left == w * (left / w) + left % w,
                    0 <= left % w < w,
            ;
        }
        return None;
    }
    proof {
        vstd::arithmetic::div_mod::lemma_fundamental_div_mod(left as int, w as int);
        assert(n * w <= left) by (nonlinear_arith)
            requires
                n <= left / w,
                left == w * (left / w) + left % w,
                0 <= left % w < w,
                0 <= n,
        ;
    }
    let mut items: Vec<T> = Vec::new();
    let mut i: usize = 0;
    let mut place: usize = at + 1;
    while i < n
        invariant
            i <= n,
            w == T::width(),
            n * w <= left,
            left == source.len() - at - 1,
            place == at + 1 + i * w,
            items@.len() == i,
            forall|k: int| 0 <= k < i ==> items@[k] == item_at::<T>(source@, at as int, k),
        decreases n - i,
    {
        proof {
            T::lemma_width();
            lemma_place(i as int, 0, w as int);
            assert((i + 1) * w <= n * w) by (nonlinear_arith)
                requires
                    i + 1 <= n,
                    0 < w,
            ;
        }
        let item = T::read(source, place);
        items.push(item);
        place = place + w;
        i = i + 1;
    }
    proof {
        assert(items@ =~= Seq::new(n as nat, |k: int| item_at::<T>(source@, at as int, k)));
    }
    Some((items, place))
}

/// Words as bytes: four bytes to a word, the lowest byte first.
pub open spec fn bytes_of(words: Seq<u32>) -> Seq<u8> {
    Seq::new(4 * words.len(), |j: int| spec_u32_to_le_bytes(words[j / 4])[j % 4])
}

/// The words that bytes stand for; nothing where the bytes do not make up
/// whole words.
pub open spec fn words_of(bytes: Seq<u8>) -> Option<Seq<u32>> {
    if bytes.len() % 4 == 0 {
        Some(
            Seq::new(
                bytes.len() / 4,
                |i: int| spec_u32_from_le_bytes(bytes.subrange(4 * i, 4 * i + 4)),
            ),
        )
    } else {
        None
    }
}

/// The bytes of words stand for those words.
pub proof fn lemma_bytes_round_trip(words: Seq<u32>)
    ensures
        words_of(bytes_of(words)) == Some(words),
{
    lemma_auto_spec_u32_to_from_le_bytes();
    let bytes = bytes_of(words);
    let back = words_of(bytes)->0;
    assert forall|i: int| 0 <= i < words.len() implies back[i] == words[i] by {
        assert(bytes.subrange(4 * i, 4 * i + 4) =~= spec_u32_to_le_bytes(words[i]));
    }
    assert(back =~= words);
}

/// Bytes that stand for words are the bytes of those words.
pub proof fn lemma_words_of_is_bytes(bytes: Seq<u8>)
    requires
        words_of(bytes) is Some,
    ensures
        bytes_of(words_of(bytes)->0) == bytes,
{
    lemma_auto_spec_u32_to_from_le_bytes();
    let words = words_of(bytes)->0;
    let again = bytes_of(words);
    assert forall|j: int| 0 <= j < bytes.len() implies again[j] == bytes[j] by {
        let i = j / 4;
        let part = bytes.subrange(4 * i, 4 * i + 4);
        assert(spec_u32_to_le_bytes(spec_u32_from_le_bytes(part)) == part);
        assert(part[j % 4] == bytes[j]);
    }
    assert(again =~= bytes);
}

/// The bytes of `words`.
pub fn to_bytes(words: &Vec<u32>) -> (bytes: Vec<u8>)
    ensures
        bytes@ == bytes_of(words@),
{
    let mut bytes: Vec<u8> = Vec::new();
    let mut i: usize = 0;
    while i < words.len()
        invariant
            i <= words@.len(),
            bytes@ == bytes_of(words@.take(i as int)),
        decreases words@.len() - i,
    {
        let mut word = u32_to_le_bytes(words[i]);
        bytes.append(&mut word);
        proof {
            lemma_auto_spec_u32_to_from_le_bytes();
            assert(bytes@ =~= bytes_of(words@.take(i + 1)));
        }
        i = i + 1;
    }
    proof {
        assert(words@.take(i as int) =~= words@);
    }
    bytes
}

/// The words that `bytes` stand for. Bytes that do not make up whole
/// words are `Malformed`.
pub fn of_bytes(bytes: &[u8]) -> (r: Result<Vec<u32>, Error>)
    ensures
        match r {
            Ok(words) => words_of(bytes@) == Some(words@),
            Err(e) => e == Error::Malformed && words_of(bytes@) is None,
        },
{
    if bytes.len() % 4 != 0 {
        return Err(Error::Malformed);
    }
    let n: usize = bytes.len() / 4;
    let mut words: Vec<u32> = Vec::new();
    let mut i: usize = 0;
    while i < n
        invariant
            i <= n,
            4 * n <= usize::MAX,
            n == bytes@.len() / 4,
            bytes@.len() % 4 == 0,
            words@.len() == i,
            forall|k: int|
                0 <= k < i ==> words@[k] == spec_u32_from_le_bytes(
                    bytes@.subrange(4 * k, 4 * k + 4),
                ),
        decreases n - i,
    {
        let part = slice_subrange(bytes, 4 * i, 4 * i + 4);
        words.push(u32_from_le_bytes(part));
        i = i + 1;
    }
    proof {
        assert(words@ =~= words_of(bytes@)->0);
    }
    Ok(words)
}

} // verus!

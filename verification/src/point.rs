//! Grid coordinates and their four axis-aligned neighbours.

use std::ops::{Add, Sub};
use vstd::prelude::*;
use vstd::std_specs::ops::{AddSpecImpl, SubSpecImpl};
use vstd::string::{to_string_from_display_ensures, StringExecFns};

verus! {

/// A cell coordinate: `Point(row, column)`.
#[derive(Debug, PartialEq, Eq, Hash, Clone, Copy, Structural)]
pub struct Point(pub i32, pub i32);

impl Default for Point {
    fn default() -> (p: Point)
        ensures
            p == Point(0, 0),
    {
        Point(0, 0)
    }
}

/// Integer types that can serve as a coordinate component: they have a unit
/// and convert to an index.
pub trait CanPointIndex: Sized {
    /// The unit of the type.
    spec fn unit() -> Self;

    /// The index this value converts to, by the rules of `as`.
    spec fn index(&self) -> usize;

    fn one() -> (r: Self)
        ensures
            r == Self::unit(),
    ;

    fn to_usize(&self) -> (r: usize)
        ensures
            r == self.index(),
    ;
}

impl CanPointIndex for usize {
    open spec fn unit() -> usize {
        1
    }

    open spec fn index(&self) -> usize {
        *self
    }

    #[inline]
    fn one() -> (r: usize) {
        1
    }

    #[inline]
    fn to_usize(&self) -> (r: usize) {
        *self
    }
}

impl CanPointIndex for u8 {
    open spec fn unit() -> u8 {
        1
    }

    open spec fn index(&self) -> usize {
        #[verifier::truncate]
        (*self as usize)
    }

    #[inline]
    fn one() -> (r: u8) {
        1
    }

    #[inline]
    fn to_usize(&self) -> (r: usize) {
        #[verifier::truncate]
        (*self as usize)
    }
}

impl CanPointIndex for u16 {
    open spec fn unit() -> u16 {
        1
    }

    open spec fn index(&self) -> usize {
        #[verifier::truncate]
        (*self as usize)
    }

    #[inline]
    fn one() -> (r: u16) {
        1
    }

    #[inline]
    fn to_usize(&self) -> (r: usize) {
        #[verifier::truncate]
        (*self as usize)
    }
}

impl CanPointIndex for u32 {
    open spec fn unit() -> u32 {
        1
    }

    open spec fn index(&self) -> usize {
        #[verifier::truncate]
        (*self as usize)
    }

    #[inline]
    fn one() -> (r: u32) {
        1
    }

    #[inline]
    fn to_usize(&self) -> (r: usize) {
        #[verifier::truncate]
        (*self as usize)
    }
}

impl CanPointIndex for u64 {
    open spec fn unit() -> u64 {
        1
    }

    open spec fn index(&self) -> usize {
        #[verifier::truncate]
        (*self as usize)
    }

    #[inline]
    fn one() -> (r: u64) {
        1
    }

    #[inline]
    fn to_usize(&self) -> (r: usize) {
        #[verifier::truncate]
        (*self as usize)
    }
}

impl CanPointIndex for u128 {
    open spec fn unit() -> u128 {
        1
    }

    open spec fn index(&self) -> usize {
        #[verifier::truncate]
        (*self as usize)
    }

    #[inline]
    fn one() -> (r: u128) {
        1
    }

    #[inline]
    fn to_usize(&self) -> (r: usize) {
        #[verifier::truncate]
        (*self as usize)
    }
}

impl CanPointIndex for isize {
    open spec fn unit() -> isize {
        1
    }

    open spec fn index(&self) -> usize {
        #[verifier::truncate]
        (*self as usize)
    }

    #[inline]
    fn one() -> (r: isize) {
        1
    }

    #[inline]
    fn to_usize(&self) -> (r: usize) {
        #[verifier::truncate]
        (*self as usize)
    }
}

impl CanPointIndex for i8 {
    open spec fn unit() -> i8 {
        1
    }

    open spec fn index(&self) -> usize {
        #[verifier::truncate]
        (*self as usize)
    }

    #[inline]
    fn one() -> (r: i8) {
        1
    }

    #[inline]
    fn to_usize(&self) -> (r: usize) {
        #[verifier::truncate]
        (*self as usize)
    }
}

impl CanPointIndex for i16 {
    open spec fn unit() -> i16 {
        1
    }

    open spec fn index(&self) -> usize {
        #[verifier::truncate]
        (*self as usize)
    }

    #[inline]
    fn one() -> (r: i16) {
        1
    }

    #[inline]
    fn to_usize(&self) -> (r: usize) {
        #[verifier::truncate]
        (*self as usize)
    }
}

impl CanPointIndex for i32 {
    open spec fn unit() -> i32 {
        1
    }

    open spec fn index(&self) -> usize {
        *self as usize
    }

    #[inline]
    fn one() -> (r: i32) {
        1
    }

    #[inline]
    fn to_usize(&self) -> (r: usize) {
        *self as usize
    }
}

impl CanPointIndex for i64 {
    open spec fn unit() -> i64 {
        1
    }

    open spec fn index(&self) -> usize {
        #[verifier::truncate]
        (*self as usize)
    }

    #[inline]
    fn one() -> (r: i64) {
        1
    }

    #[inline]
    fn to_usize(&self) -> (r: usize) {
        #[verifier::truncate]
        (*self as usize)
    }
}

impl CanPointIndex for i128 {
    open spec fn unit() -> i128 {
        1
    }

    open spec fn index(&self) -> usize {
        #[verifier::truncate]
        (*self as usize)
    }

    #[inline]
    fn one() -> (r: i128) {
        1
    }

    #[inline]
    fn to_usize(&self) -> (r: usize) {
        #[verifier::truncate]
        (*self as usize)
    }
}

impl Point {
    /// Both components can move one step in either direction without leaving
    /// the range of `i32`.
    pub open spec fn can_step(self) -> bool {
        &&& i32::MIN < self.0 < i32::MAX
        &&& i32::MIN < self.1 < i32::MAX
    }

    /// The cell one row up.
    pub open spec fn up(self) -> Point {
        Point((self.0 - 1) as i32, self.1)
    }

    /// The cell one row down.
    pub open spec fn down(self) -> Point {
        Point((self.0 + 1) as i32, self.1)
    }

    /// The cell one column to the left.
    pub open spec fn left(self) -> Point {
        Point(self.0, (self.1 - 1) as i32)
    }

    /// The cell one column to the right.
    pub open spec fn right(self) -> Point {
        Point(self.0, (self.1 + 1) as i32)
    }

    /// The four neighbours in their fixed order: up, down, left, right.
    pub open spec fn neighbours(self) -> Seq<Point> {
        seq![self.up(), self.down(), self.left(), self.right()]
    }

    /// `other` is one step away from `self` along exactly one axis.
    pub open spec fn adjacent(self, other: Point) -> bool {
        ||| (self.1 == other.1 && (self.0 - other.0 == 1 || other.0 - self.0 == 1))
        ||| (self.0 == other.0 && (self.1 - other.1 == 1 || other.1 - self.1 == 1))
    }

    /// The four neighbours: up, down, left, right.
    pub fn get_range_vec(&self) -> (r: Vec<Point>)
        requires
            self.can_step(),
        ensures
            r@ == self.neighbours(),
    {
        let mut r: Vec<Point> = Vec::new();
        r.push(Point(self.0 - 1, self.1));
        r.push(Point(self.0 + 1, self.1));
        r.push(Point(self.0, self.1 - 1));
        r.push(Point(self.0, self.1 + 1));
        assert(r@ =~= self.neighbours());
        r
    }

    /// The four neighbours as a tuple: up, down, left, right.
    pub fn get_range_tuple(&self) -> (r: (Point, Point, Point, Point))
        requires
            self.can_step(),
        ensures
            r == (self.up(), self.down(), self.left(), self.right()),
    {
        (
            Point(self.0 - 1, self.1),
            Point(self.0 + 1, self.1),
            Point(self.0, self.1 - 1),
            Point(self.0, self.1 + 1),
        )
    }

    /// `text` is this point as text: `(r, c)`, with the components as the
    /// standard library writes integers.
    pub open spec fn written(self, text: Seq<char>) -> bool {
        exists|r: String, c: String|
            {
                &&& #[trigger] to_string_from_display_ensures::<i32>(&self.0, r)
                &&& #[trigger] to_string_from_display_ensures::<i32>(&self.1, c)
                &&& text == "("@ + r@ + ", "@ + c@ + ")"@
            }
    }

    /// This point as text: `(r, c)`.
    pub fn text(&self) -> (res: String)
        ensures
            self.written(res@),
    {
        let r = self.0.to_string();
        let c = self.1.to_string();
        let mut res = "(".to_owned();
        res.append(r.as_str());
        res.append(", ");
        res.append(c.as_str());
        res.append(")");
        assert(res@ =~= "("@ + r@ + ", "@ + c@ + ")"@);
        res
    }

    /// The first component (the row).
    pub fn x(&self) -> (r: i32)
        ensures
            r == self.0,
    {
        self.0
    }

    /// The second component (the column).
    pub fn y(&self) -> (r: i32)
        ensures
            r == self.1,
    {
        self.1
    }
}

/// Every neighbour of a cell is adjacent to it, and every adjacent cell is one
/// of the four neighbours.
pub proof fn lemma_neighbours_adjacent(p: Point, q: Point)
    requires
        p.can_step(),
    ensures
        p.adjacent(q) <==> p.neighbours().contains(q),
        p.adjacent(q) <==> (q == p.up() || q == p.down() || q == p.left() || q == p.right()),
        p.adjacent(q) ==> p != q,
        p.adjacent(q) <==> q.adjacent(p),
{
    let n = p.neighbours();
    assert(n[0] == p.up() && n[1] == p.down() && n[2] == p.left() && n[3] == p.right());
    if q == p.up() || q == p.down() || q == p.left() || q == p.right() {
        assert(n.contains(q));
    }
}

impl Add for Point {
    type Output = Point;

    fn add(self, rhs: Point) -> (r: Point) {
        Point(self.0 + rhs.0, self.1 + rhs.1)
    }
}

impl AddSpecImpl for Point {
    open spec fn obeys_add_spec() -> bool {
        true
    }

    open spec fn add_req(self, rhs: Point) -> bool {
        &&& i32::MIN <= self.0 + rhs.0 <= i32::MAX
        &&& i32::MIN <= self.1 + rhs.1 <= i32::MAX
    }

    open spec fn add_spec(self, rhs: Point) -> Point {
        Point((self.0 + rhs.0) as i32, (self.1 + rhs.1) as i32)
    }
}

impl Add<(i32, i32)> for Point {
    type Output = Point;

    fn add(self, rhs: (i32, i32)) -> (r: Point) {
        Point(self.0 + rhs.0, self.1 + rhs.1)
    }
}

impl AddSpecImpl<(i32, i32)> for Point {
    open spec fn obeys_add_spec() -> bool {
        true
    }

    open spec fn add_req(self, rhs: (i32, i32)) -> bool {
        &&& i32::MIN <= self.0 + rhs.0 <= i32::MAX
        &&& i32::MIN <= self.1 + rhs.1 <= i32::MAX
    }

    open spec fn add_spec(self, rhs: (i32, i32)) -> Point {
        Point((self.0 + rhs.0) as i32, (self.1 + rhs.1) as i32)
    }
}

impl Sub for Point {
    type Output = Point;

    fn sub(self, rhs: Point) -> (r: Point) {
        Point(self.0 - rhs.0, self.1 - rhs.1)
    }
}

impl SubSpecImpl for Point {
    open spec fn obeys_sub_spec() -> bool {
        true
    }

    open spec fn sub_req(self, rhs: Point) -> bool {
        &&& i32::MIN <= self.0 - rhs.0 <= i32::MAX
        &&& i32::MIN <= self.1 - rhs.1 <= i32::MAX
    }

    open spec fn sub_spec(self, rhs: Point) -> Point {
        Point((self.0 - rhs.0) as i32, (self.1 - rhs.1) as i32)
    }
}

impl Sub<(i32, i32)> for Point {
    type Output = Point;

    fn sub(self, rhs: (i32, i32)) -> (r: Point) {
        Point(self.0 - rhs.0, self.1 - rhs.1)
    }
}

impl SubSpecImpl<(i32, i32)> for Point {
    open spec fn obeys_sub_spec() -> bool {
        true
    }

    open spec fn sub_req(self, rhs: (i32, i32)) -> bool {
        &&& i32::MIN <= self.0 - rhs.0 <= i32::MAX
        &&& i32::MIN <= self.1 - rhs.1 <= i32::MAX
    }

    open spec fn sub_spec(self, rhs: (i32, i32)) -> Point {
        Point((self.0 - rhs.0) as i32, (self.1 - rhs.1) as i32)
    }
}

} // verus!

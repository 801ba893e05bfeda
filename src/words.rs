//! The fixed words of the text formats, as bytes.
use vstd::prelude::*;

verus! {

/// `File type = "ooTextFile"`
pub open spec fn file_type() -> Seq<u8> {
    seq![70u8, 105, 108, 101, 32, 116, 121, 112, 101, 32, 61, 32, 34, 111, 111, 84, 101, 120, 116, 70, 105, 108, 101, 34]
}

pub fn file_type_bytes() -> (r: Vec<u8>)
    ensures
        r@ == file_type(),
{
    vec![70u8, 105, 108, 101, 32, 116, 121, 112, 101, 32, 61, 32, 34, 111, 111, 84, 101, 120, 116, 70, 105, 108, 101, 34]
}

/// `Object class = "TextGrid"`
pub open spec fn object_class() -> Seq<u8> {
    seq![79u8, 98, 106, 101, 99, 116, 32, 99, 108, 97, 115, 115, 32, 61, 32, 34, 84, 101, 120, 116, 71, 114, 105, 100, 34]
}

pub fn object_class_bytes() -> (r: Vec<u8>)
    ensures
        r@ == object_class(),
{
    vec![79u8, 98, 106, 101, 99, 116, 32, 99, 108, 97, 115, 115, 32, 61, 32, 34, 84, 101, 120, 116, 71, 114, 105, 100, 34]
}

/// `xmin = `
pub open spec fn xmin_eq() -> Seq<u8> {
    seq![120u8, 109, 105, 110, 32, 61, 32]
}

pub fn xmin_eq_bytes() -> (r: Vec<u8>)
    ensures
        r@ == xmin_eq(),
{
    vec![120u8, 109, 105, 110, 32, 61, 32]
}

/// `xmax = `
pub open spec fn xmax_eq() -> Seq<u8> {
    seq![120u8, 109, 97, 120, 32, 61, 32]
}

pub fn xmax_eq_bytes() -> (r: Vec<u8>)
    ensures
        r@ == xmax_eq(),
{
    vec![120u8, 109, 97, 120, 32, 61, 32]
}

/// `tiers? <exists>`
pub open spec fn tiers_exist() -> Seq<u8> {
    seq![116u8, 105, 101, 114, 115, 63, 32, 60, 101, 120, 105, 115, 116, 115, 62]
}

pub fn tiers_exist_bytes() -> (r: Vec<u8>)
    ensures
        r@ == tiers_exist(),
{
    vec![116u8, 105, 101, 114, 115, 63, 32, 60, 101, 120, 105, 115, 116, 115, 62]
}

/// `size = `
pub open spec fn size_eq() -> Seq<u8> {
    seq![115u8, 105, 122, 101, 32, 61, 32]
}

pub fn size_eq_bytes() -> (r: Vec<u8>)
    ensures
        r@ == size_eq(),
{
    vec![115u8, 105, 122, 101, 32, 61, 32]
}

/// `item []:`
pub open spec fn item_list() -> Seq<u8> {
    seq![105u8, 116, 101, 109, 32, 91, 93, 58]
}

pub fn item_list_bytes() -> (r: Vec<u8>)
    ensures
        r@ == item_list(),
{
    vec![105u8, 116, 101, 109, 32, 91, 93, 58]
}

/// `    item [`
pub open spec fn item_open() -> Seq<u8> {
    seq![32u8, 32, 32, 32, 105, 116, 101, 109, 32, 91]
}

pub fn item_open_bytes() -> (r: Vec<u8>)
    ensures
        r@ == item_open(),
{
    vec![32u8, 32, 32, 32, 105, 116, 101, 109, 32, 91]
}

/// `]:`
pub open spec fn close_colon() -> Seq<u8> {
    seq![93u8, 58]
}

pub fn close_colon_bytes() -> (r: Vec<u8>)
    ensures
        r@ == close_colon(),
{
    vec![93u8, 58]
}

/// `class = `
pub open spec fn class_eq() -> Seq<u8> {
    seq![99u8, 108, 97, 115, 115, 32, 61, 32]
}

pub fn class_eq_bytes() -> (r: Vec<u8>)
    ensures
        r@ == class_eq(),
{
    vec![99u8, 108, 97, 115, 115, 32, 61, 32]
}

/// `name = `
pub open spec fn name_eq() -> Seq<u8> {
    seq![110u8, 97, 109, 101, 32, 61, 32]
}

pub fn name_eq_bytes() -> (r: Vec<u8>)
    ensures
        r@ == name_eq(),
{
    vec![110u8, 97, 109, 101, 32, 61, 32]
}

/// `intervals: size = `
pub open spec fn intervals_size_eq() -> Seq<u8> {
    seq![105u8, 110, 116, 101, 114, 118, 97, 108, 115, 58, 32, 115, 105, 122, 101, 32, 61, 32]
}

pub fn intervals_size_eq_bytes() -> (r: Vec<u8>)
    ensures
        r@ == intervals_size_eq(),
{
    vec![105u8, 110, 116, 101, 114, 118, 97, 108, 115, 58, 32, 115, 105, 122, 101, 32, 61, 32]
}

/// `points: size = `
pub open spec fn points_size_eq() -> Seq<u8> {
    seq![112u8, 111, 105, 110, 116, 115, 58, 32, 115, 105, 122, 101, 32, 61, 32]
}

pub fn points_size_eq_bytes() -> (r: Vec<u8>)
    ensures
        r@ == points_size_eq(),
{
    vec![112u8, 111, 105, 110, 116, 115, 58, 32, 115, 105, 122, 101, 32, 61, 32]
}

/// `        intervals [`
pub open spec fn intervals_open() -> Seq<u8> {
    seq![32u8, 32, 32, 32, 32, 32, 32, 32, 105, 110, 116, 101, 114, 118, 97, 108, 115, 32, 91]
}

pub fn intervals_open_bytes() -> (r: Vec<u8>)
    ensures
        r@ == intervals_open(),
{
    vec![32u8, 32, 32, 32, 32, 32, 32, 32, 105, 110, 116, 101, 114, 118, 97, 108, 115, 32, 91]
}

/// `        points [`
pub open spec fn points_open() -> Seq<u8> {
    seq![32u8, 32, 32, 32, 32, 32, 32, 32, 112, 111, 105, 110, 116, 115, 32, 91]
}

pub fn points_open_bytes() -> (r: Vec<u8>)
    ensures
        r@ == points_open(),
{
    vec![32u8, 32, 32, 32, 32, 32, 32, 32, 112, 111, 105, 110, 116, 115, 32, 91]
}

/// `text = `
pub open spec fn text_eq() -> Seq<u8> {
    seq![116u8, 101, 120, 116, 32, 61, 32]
}

pub fn text_eq_bytes() -> (r: Vec<u8>)
    ensures
        r@ == text_eq(),
{
    vec![116u8, 101, 120, 116, 32, 61, 32]
}

/// `time = `
pub open spec fn time_eq() -> Seq<u8> {
    seq![116u8, 105, 109, 101, 32, 61, 32]
}

pub fn time_eq_bytes() -> (r: Vec<u8>)
    ensures
        r@ == time_eq(),
{
    vec![116u8, 105, 109, 101, 32, 61, 32]
}

/// `mark = `
pub open spec fn mark_eq() -> Seq<u8> {
    seq![109u8, 97, 114, 107, 32, 61, 32]
}

pub fn mark_eq_bytes() -> (r: Vec<u8>)
    ensures
        r@ == mark_eq(),
{
    vec![109u8, 97, 114, 107, 32, 61, 32]
}

/// `IntervalTier`
pub open spec fn interval_tier() -> Seq<u8> {
    seq![73u8, 110, 116, 101, 114, 118, 97, 108, 84, 105, 101, 114]
}

pub fn interval_tier_bytes() -> (r: Vec<u8>)
    ensures
        r@ == interval_tier(),
{
    vec![73u8, 110, 116, 101, 114, 118, 97, 108, 84, 105, 101, 114]
}

/// `TextTier`
pub open spec fn text_tier() -> Seq<u8> {
    seq![84u8, 101, 120, 116, 84, 105, 101, 114]
}

pub fn text_tier_bytes() -> (r: Vec<u8>)
    ensures
        r@ == text_tier(),
{
    vec![84u8, 101, 120, 116, 84, 105, 101, 114]
}

/// `ooBinaryFile`
pub open spec fn oo_binary_file() -> Seq<u8> {
    seq![111u8, 111, 66, 105, 110, 97, 114, 121, 70, 105, 108, 101]
}

pub fn oo_binary_file_bytes() -> (r: Vec<u8>)
    ensures
        r@ == oo_binary_file(),
{
    vec![111u8, 111, 66, 105, 110, 97, 114, 121, 70, 105, 108, 101]
}

/// `TextGrid`
pub open spec fn text_grid() -> Seq<u8> {
    seq![84u8, 101, 120, 116, 71, 114, 105, 100]
}

pub fn text_grid_bytes() -> (r: Vec<u8>)
    ensures
        r@ == text_grid(),
{
    vec![84u8, 101, 120, 116, 71, 114, 105, 100]
}

} // verus!

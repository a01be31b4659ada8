//! The memory that the machine has, from the device tree it hands over.
//!
//! The tree is read by the `fdt` crate. The crate stops the machine on a node
//! that is broken, so a tree is looked through up to a node before the node is
//! asked for.

use vstd::prelude::*;
use vstd::string::StrSliceExecFns;
use vstd::string::StringSliceAdditionalSpecFns;
use vstd::utf8::valid_utf8;

use super::elf::is_utf8;

verus! {

/// Four bytes, the high one first.
pub open spec fn be32(b: Seq<u8>, at: int) -> int {
    b[at] * 0x100_0000 + b[at + 1] * 0x1_0000 + b[at + 2] * 0x100 + b[at + 3]
}

fn read_be32(b: &Vec<u8>, at: usize) -> (n: u64)
    requires
        at + 4 <= b@.len(),
    ensures
        n == be32(b@, at as int),
{
    let len: usize = b.len();
    assert(at + 4 <= len);
    b[at] as u64 * 0x100_0000 + b[at + 1] as u64 * 0x1_0000 + b[at + 2] as u64 * 0x100 + b[at
        + 3] as u64
}

/// The first byte of the structure part.
pub open spec fn struct_start(b: Seq<u8>) -> int {
    be32(b, 8)
}

/// The byte behind the structure part.
pub open spec fn struct_end(b: Seq<u8>) -> int {
    be32(b, 8) + be32(b, 36)
}

/// The first byte of the names.
pub open spec fn names_start(b: Seq<u8>) -> int {
    be32(b, 12)
}

/// The byte behind the names.
pub open spec fn names_end(b: Seq<u8>) -> int {
    be32(b, 12) + be32(b, 32)
}

/// The tree has the mark of a device tree, and its parts lie in it.
pub open spec fn head_ok(b: Seq<u8>) -> bool {
    &&& b.len() >= 40
    &&& be32(b, 0) == 0xd00d_feed
    &&& be32(b, 4) <= b.len()
    &&& be32(b, 16) <= b.len()
    &&& struct_end(b) <= b.len()
    &&& names_end(b) <= b.len()
}

/// The place of the first zero from `at` on and before `end`.
pub open spec fn text_end(b: Seq<u8>, at: int, end: int) -> Option<int>
    decreases end - at,
{
    if at >= end {
        None
    } else if b[at] == 0 {
        Some(at)
    } else {
        text_end(b, at + 1, end)
    }
}

/// The end of the name that starts at a place: the first zero, where the bytes before it are
/// text.
pub open spec fn name_end(b: Seq<u8>, at: int, end: int) -> Option<int> {
    match text_end(b, at, end) {
        Some(z) => if valid_utf8(b.subrange(at, z)) {
            Some(z)
        } else {
            None
        },
        None => None,
    }
}

/// The length in whole words.
pub open spec fn padded(n: int) -> int {
    (n + 3) / 4 * 4
}

/// The name of the property that tells how many words an address has.
pub open spec fn address_cells_word() -> Seq<u8> {
    seq![35u8, 97, 100, 100, 114, 101, 115, 115, 45, 99, 101, 108, 108, 115]
}

/// The name of the property that tells how many words a size has.
pub open spec fn size_cells_word() -> Seq<u8> {
    seq![35u8, 115, 105, 122, 101, 45, 99, 101, 108, 108, 115]
}

/// A name that tells how many words an address or a size has.
pub open spec fn is_cells(name: Seq<u8>) -> bool {
    name == address_cells_word() || name == size_cells_word()
}

/// The property at a place is whole and has a name.
pub open spec fn property_ok(b: Seq<u8>, at: int) -> bool {
    let end = struct_end(b);
    let len = be32(b, at + 4);
    let name = names_start(b) + be32(b, at + 8);
    &&& at + 12 <= end
    &&& len <= end - (at + 12)
    &&& name <= names_end(b)
    &&& name_end(b, name, names_end(b)) is Some
}

/// The bytes of the structure part from `at` on.
pub open spec fn bytes_left(b: Seq<u8>, at: int) -> int {
    if at < struct_end(b) {
        struct_end(b) - at
    } else {
        0
    }
}

/// The token at a place, where one is there.
pub open spec fn token_at(b: Seq<u8>, at: int) -> Option<int> {
    if 0 <= at && at + 4 <= struct_end(b) {
        Some(be32(b, at))
    } else {
        None
    }
}

/// The place behind the padding from `at` on.
pub open spec fn behind_padding(b: Seq<u8>, at: int) -> int
    decreases bytes_left(b, at),
{
    if token_at(b, at) == Some(4int) {
        behind_padding(b, at + 4)
    } else {
        at
    }
}

/// The place behind the nodes that end from `at` on, `depth` nodes deep, and how deep that is;
/// none where more end than began.
pub open spec fn behind_ends(b: Seq<u8>, at: int, depth: int) -> Option<(int, int)>
    decreases bytes_left(b, at),
{
    if token_at(b, at) != Some(2int) {
        Some((at, depth))
    } else if depth <= 0 {
        None
    } else {
        behind_ends(b, at + 4, depth - 1)
    }
}

/// The place behind a property.
pub open spec fn behind_property(b: Seq<u8>, at: int) -> int {
    at + 12 + padded(be32(b, at + 4))
}

/// The place behind the properties from `at` on; none where one of them cannot be read.
pub open spec fn behind_properties(b: Seq<u8>, at: int) -> Option<int>
    decreases bytes_left(b, at),
{
    if token_at(b, at) != Some(3int) {
        Some(at)
    } else if !property_ok(b, at) || behind_property(b, at) <= at {
        None
    } else {
        behind_properties(b, behind_property(b, at))
    }
}

/// The name of the property at a place.
pub open spec fn property_name(b: Seq<u8>, at: int) -> Seq<u8> {
    let name = names_start(b) + be32(b, at + 8);
    match name_end(b, name, names_end(b)) {
        Some(z) => b.subrange(name, z),
        None => Seq::empty(),
    }
}

/// The value of the property at a place.
pub open spec fn property_value(b: Seq<u8>, at: int) -> Seq<u8> {
    b.subrange(at + 12, at + 12 + be32(b, at + 4))
}

/// The place of the first property with a name, from `at` on, with the padding between them.
pub open spec fn found_property(b: Seq<u8>, at: int, name: Seq<u8>) -> Option<int>
    decreases bytes_left(b, at),
{
    if token_at(b, at) == Some(4int) {
        found_property(b, at + 4, name)
    } else if token_at(b, at) == Some(3int) {
        if property_name(b, at) == name {
            Some(at)
        } else if behind_property(b, at) > at {
            found_property(b, behind_property(b, at), name)
        } else {
            None
        }
    } else {
        None
    }
}

/// The properties from `at` on can be read, with the padding between them, up to the first
/// with a name.
pub open spec fn readable_to(b: Seq<u8>, at: int, name: Seq<u8>) -> bool
    decreases bytes_left(b, at),
{
    if token_at(b, at) == Some(4int) {
        readable_to(b, at + 4, name)
    } else if token_at(b, at) == Some(3int) {
        property_ok(b, at) && (property_name(b, at) == name || (behind_property(b, at) > at
            && readable_to(b, behind_property(b, at), name)))
    } else {
        true
    }
}

/// The property at a place has a number where its name asks for one.
pub open spec fn numbered(b: Seq<u8>, at: int) -> bool {
    is_cells(property_name(b, at)) ==> be32(b, at + 4) >= 4
}

/// The properties from `at` on, with the padding between them, can be read and have numbers
/// where their names ask for them.
pub open spec fn cells_ok(b: Seq<u8>, at: int) -> bool
    decreases bytes_left(b, at),
{
    if token_at(b, at) == Some(4int) {
        cells_ok(b, at + 4)
    } else if token_at(b, at) == Some(3int) {
        property_ok(b, at) && numbered(b, at) && behind_property(b, at) > at && cells_ok(
            b,
            behind_property(b, at),
        )
    } else {
        true
    }
}

/// What comes next in a tree.
pub enum NextNode {
    /// Nothing does.
    End,
    /// It cannot be read.
    Bad,
    /// A node: the place of its properties, the place behind them, and how deep that is.
    Node(int, int, int),
}

/// The node whose properties start at a place.
pub open spec fn opened_node(b: Seq<u8>, at: int, depth: int) -> NextNode {
    match behind_properties(b, behind_padding(b, at)) {
        None => NextNode::Bad,
        Some(behind) => if token_at(b, behind) is None {
            NextNode::End
        } else {
            NextNode::Node(at, behind, depth)
        },
    }
}

/// The next node from a place on, `depth` nodes deep.
pub open spec fn next_node(b: Seq<u8>, at: int, depth: int) -> NextNode {
    match behind_ends(b, at, depth) {
        None => NextNode::Bad,
        Some((ended, outer)) => {
            let begin = behind_padding(b, ended);
            if token_at(b, begin) != Some(1int) {
                NextNode::End
            } else {
                match name_end(b, begin + 4, struct_end(b)) {
                    None => NextNode::Bad,
                    Some(z) => if outer >= 63 {
                        NextNode::Bad
                    } else {
                        opened_node(b, begin + 4 + padded(z - (begin + 4) + 1), outer + 1)
                    },
                }
            }
        },
    }
}

/// Node `i` of a tree, in its order.
pub open spec fn node_at(b: Seq<u8>, i: nat) -> NextNode
    decreases i,
{
    if i == 0 {
        next_node(b, struct_start(b), 0)
    } else {
        match node_at(b, (i - 1) as nat) {
            NextNode::Node(_, at, depth) => next_node(b, at, depth),
            other => other,
        }
    }
}

/// The place of the properties of the last node before node `i` that is one less than `depth`
/// deep.
pub open spec fn parent_of(b: Seq<u8>, i: nat, depth: int) -> Option<int>
    decreases i,
{
    if i == 0 {
        None
    } else {
        match node_at(b, (i - 1) as nat) {
            NextNode::Node(at, _, outer) => if outer == depth - 1 {
                Some(at)
            } else {
                parent_of(b, (i - 1) as nat, depth)
            },
            _ => None,
        }
    }
}

/// The node around node `i` tells how many words an address and a size have, where it tells it
/// at all.
pub open spec fn sized(b: Seq<u8>, i: nat) -> bool {
    match node_at(b, i) {
        NextNode::Node(_, _, depth) => match parent_of(b, i, depth) {
            Some(at) => cells_ok(b, at),
            None => true,
        },
        _ => false,
    }
}

fn find_text_end(b: &Vec<u8>, at: usize, end: usize) -> (z: Option<usize>)
    requires
        end <= b@.len(),
    ensures
        match z {
            None => text_end(b@, at as int, end as int) is None,
            Some(z) => text_end(b@, at as int, end as int) == Some(z as int) && at <= z < end,
        },
{
    let mut i: usize = at;
    while i < end
        invariant
            end <= b@.len(),
            at <= i,
            text_end(b@, at as int, end as int) == text_end(b@, i as int, end as int),
        decreases end - i,
    {
        if b[i] == 0 {
            return Some(i);
        }
        i = i + 1;
    }
    None
}

fn find_name_end(b: &Vec<u8>, at: usize, end: usize) -> (z: Option<usize>)
    requires
        end <= b@.len(),
    ensures
        match z {
            None => name_end(b@, at as int, end as int) is None,
            Some(z) => name_end(b@, at as int, end as int) == Some(z as int) && at <= z < end,
        },
{
    let z: usize = match find_text_end(b, at, end) {
        None => {
            return None;
        },
        Some(z) => z,
    };
    let mut name: Vec<u8> = Vec::new();
    let mut i: usize = at;
    while i < z
        invariant
            at <= i <= z,
            z < end <= b@.len(),
            name@ == b@.subrange(at as int, i as int),
        decreases z - i,
    {
        name.push(b[i]);
        i = i + 1;
        assert(name@ =~= b@.subrange(at as int, i as int));
    }
    if is_utf8(&name) {
        Some(z)
    } else {
        None
    }
}

fn same_bytes(b: &Vec<u8>, from: usize, to: usize, name: &Vec<u8>) -> (yes: bool)
    requires
        from <= to <= b@.len(),
    ensures
        yes <==> b@.subrange(from as int, to as int) == name@,
{
    if to - from != name.len() {
        return false;
    }
    let mut i: usize = 0;
    while i < name.len()
        invariant
            i <= name@.len(),
            from <= to <= b@.len(),
            to - from == name@.len(),
            forall|k: int| 0 <= k < i ==> b@[from + k] == name@[k],
        decreases name@.len() - i,
    {
        if b[from + i] != name[i] {
            assert(b@.subrange(from as int, to as int)[i as int] != name@[i as int]);
            return false;
        }
        i = i + 1;
    }
    assert(b@.subrange(from as int, to as int) =~= name@);
    true
}

fn names_cells(b: &Vec<u8>, from: usize, to: usize) -> (yes: bool)
    requires
        from <= to <= b@.len(),
    ensures
        yes == is_cells(b@.subrange(from as int, to as int)),
{
    let address: Vec<u8> = vec![35, 97, 100, 100, 114, 101, 115, 115, 45, 99, 101, 108, 108, 115];
    let size: Vec<u8> = vec![35, 115, 105, 122, 101, 45, 99, 101, 108, 108, 115];
    proof {
        assert(address@ =~= address_cells_word());
        assert(size@ =~= size_cells_word());
    }
    same_bytes(b, from, to, &address) || same_bytes(b, from, to, &size)
}

/// Tells whether a tree has the mark of a device tree, and its parts lie in it.
pub fn check_head(b: &Vec<u8>) -> (yes: bool)
    ensures
        yes == head_ok(b@),
{
    if b.len() < 40 || read_be32(b, 0) != 0xd00d_feed {
        return false;
    }
    let len: u64 = b.len() as u64;
    if read_be32(b, 4) > len || read_be32(b, 16) > len {
        return false;
    }
    let end: u64 = read_be32(b, 8) + read_be32(b, 36);
    let names_last: u64 = read_be32(b, 12) + read_be32(b, 32);
    end <= len && names_last <= len
}

fn read_token(b: &Vec<u8>, at: u64) -> (token: Option<u64>)
    requires
        head_ok(b@),
        at <= 0x4_0000_0000,
    ensures
        match token {
            None => token_at(b@, at as int) is None,
            Some(n) => token_at(b@, at as int) == Some(n as int) && at + 4 <= struct_end(b@),
        },
{
    let end: u64 = read_be32(b, 8) + read_be32(b, 36);
    let len: usize = b.len();
    assert(end <= len);
    if at + 4 <= end {
        Some(read_be32(b, at as usize))
    } else {
        None
    }
}

fn is_token(b: &Vec<u8>, at: u64, token: u64) -> (yes: bool)
    requires
        head_ok(b@),
        at <= 0x4_0000_0000,
    ensures
        yes <==> token_at(b@, at as int) == Some(token as int),
        yes ==> at + 4 <= struct_end(b@),
{
    match read_token(b, at) {
        Some(n) => n == token,
        None => false,
    }
}

fn skip_padding(b: &Vec<u8>, from: u64) -> (at: u64)
    requires
        head_ok(b@),
        from <= struct_end(b@) + 8,
    ensures
        at == behind_padding(b@, from as int),
        from <= at <= struct_end(b@) + 8,
{
    let mut at: u64 = from;
    while is_token(b, at, 4)
        invariant
            head_ok(b@),
            from <= at <= struct_end(b@) + 8,
            behind_padding(b@, from as int) == behind_padding(b@, at as int),
        decreases struct_end(b@) + 8 - at,
    {
        at = at + 4;
    }
    at
}

fn skip_ends(b: &Vec<u8>, from: u64, depth: u64) -> (behind: Option<(u64, u64)>)
    requires
        head_ok(b@),
        from <= struct_end(b@) + 8,
    ensures
        match behind {
            None => behind_ends(b@, from as int, depth as int) is None,
            Some((at, outer)) => behind_ends(b@, from as int, depth as int) == Some(
                (at as int, outer as int),
            ) && from <= at <= struct_end(b@) + 8 && outer <= depth,
        },
{
    let mut at: u64 = from;
    let mut outer: u64 = depth;
    while is_token(b, at, 2)
        invariant
            head_ok(b@),
            from <= at <= struct_end(b@) + 8,
            outer <= depth,
            behind_ends(b@, from as int, depth as int) == behind_ends(b@, at as int, outer as int),
        decreases struct_end(b@) + 8 - at,
    {
        if outer == 0 {
            return None;
        }
        at = at + 4;
        outer = outer - 1;
    }
    Some((at, outer))
}

/// Tells whether a property can be read, and returns the place behind it.
fn skip_property(b: &Vec<u8>, at: u64) -> (behind: Option<u64>)
    requires
        head_ok(b@),
        at + 4 <= struct_end(b@),
    ensures
        match behind {
            None => !property_ok(b@, at as int),
            Some(n) => property_ok(b@, at as int) && n == behind_property(b@, at as int) && at < n
                <= struct_end(b@) + 8,
        },
{
    let end: u64 = read_be32(b, 8) + read_be32(b, 36);
    let names: u64 = read_be32(b, 12);
    let names_last: u64 = names + read_be32(b, 32);
    let len: usize = b.len();
    assert(end <= len && names_last <= len);
    if at + 12 > end {
        return None;
    }
    let size: u64 = read_be32(b, at as usize + 4);
    if size > end - (at + 12) {
        return None;
    }
    let name: u64 = names + read_be32(b, at as usize + 8);
    if name > names_last {
        return None;
    }
    match find_name_end(b, name as usize, names_last as usize) {
        None => None,
        Some(_) => Some(at + 12 + (size + 3) / 4 * 4),
    }
}

fn is_numbered(b: &Vec<u8>, at: u64) -> (yes: bool)
    requires
        head_ok(b@),
        at + 12 <= struct_end(b@),
        property_ok(b@, at as int),
    ensures
        yes == numbered(b@, at as int),
{
    let names: u64 = read_be32(b, 12);
    let names_last: u64 = names + read_be32(b, 32);
    let len: usize = b.len();
    assert(at + 12 <= len && names_last <= len);
    let size: u64 = read_be32(b, at as usize + 4);
    let name: u64 = names + read_be32(b, at as usize + 8);
    match find_name_end(b, name as usize, names_last as usize) {
        None => false,
        Some(z) => size >= 4 || !names_cells(b, name as usize, z),
    }
}

fn check_cells(b: &Vec<u8>, from: u64) -> (yes: bool)
    requires
        head_ok(b@),
        from <= struct_end(b@) + 8,
    ensures
        yes == cells_ok(b@, from as int),
{
    let mut at: u64 = from;
    loop
        invariant
            head_ok(b@),
            from <= at <= struct_end(b@) + 8,
            cells_ok(b@, from as int) == cells_ok(b@, at as int),
        decreases struct_end(b@) + 8 - at,
    {
        match read_token(b, at) {
            Some(4) => {
                at = at + 4;
            },
            Some(3) => match skip_property(b, at) {
                None => {
                    return false;
                },
                Some(behind) => {
                    if !is_numbered(b, at) {
                        return false;
                    }
                    at = behind;
                },
            },
            _ => {
                return true;
            },
        }
    }
}

fn skip_properties(b: &Vec<u8>, from: u64) -> (behind: Option<u64>)
    requires
        head_ok(b@),
        from <= struct_end(b@) + 8,
    ensures
        match behind {
            None => behind_properties(b@, from as int) is None,
            Some(at) => behind_properties(b@, from as int) == Some(at as int) && from <= at
                <= struct_end(b@) + 8,
        },
{
    let mut at: u64 = from;
    while is_token(b, at, 3)
        invariant
            head_ok(b@),
            from <= at <= struct_end(b@) + 8,
            behind_properties(b@, from as int) == behind_properties(b@, at as int),
        decreases struct_end(b@) + 8 - at,
    {
        match skip_property(b, at) {
            None => {
                return None;
            },
            Some(behind) => {
                at = behind;
            },
        }
    }
    Some(at)
}

fn is_named(b: &Vec<u8>, at: u64, name: &Vec<u8>) -> (yes: bool)
    requires
        head_ok(b@),
        at + 12 <= struct_end(b@),
        property_ok(b@, at as int),
    ensures
        yes == (property_name(b@, at as int) == name@),
{
    let names: u64 = read_be32(b, 12);
    let names_last: u64 = names + read_be32(b, 32);
    let len: usize = b.len();
    assert(at + 12 <= len && names_last <= len);
    let start: u64 = names + read_be32(b, at as usize + 8);
    match find_name_end(b, start as usize, names_last as usize) {
        None => false,
        Some(z) => same_bytes(b, start as usize, z, name),
    }
}

/// Tells whether the properties can be read up to the first with a name.
fn check_to(b: &Vec<u8>, from: u64, name: &Vec<u8>) -> (yes: bool)
    requires
        head_ok(b@),
        from <= struct_end(b@) + 8,
    ensures
        yes == readable_to(b@, from as int, name@),
{
    let mut at: u64 = from;
    loop
        invariant
            head_ok(b@),
            from <= at <= struct_end(b@) + 8,
            readable_to(b@, from as int, name@) == readable_to(b@, at as int, name@),
        decreases struct_end(b@) + 8 - at,
    {
        match read_token(b, at) {
            Some(4) => {
                at = at + 4;
            },
            Some(3) => match skip_property(b, at) {
                None => {
                    return false;
                },
                Some(behind) => {
                    if is_named(b, at, name) {
                        return true;
                    }
                    at = behind;
                },
            },
            _ => {
                return true;
            },
        }
    }
}

/// What comes next in a tree, as it was found.
enum FoundNode {
    End,
    Bad,
    Node(u64, u64, u64),
}

spec fn found(node: FoundNode) -> NextNode {
    match node {
        FoundNode::End => NextNode::End,
        FoundNode::Bad => NextNode::Bad,
        FoundNode::Node(at, behind, depth) => NextNode::Node(
            at as int,
            behind as int,
            depth as int,
        ),
    }
}

fn find_next_node(b: &Vec<u8>, from: u64, depth: u64) -> (node: FoundNode)
    requires
        head_ok(b@),
        from <= struct_end(b@) + 8,
        depth <= 63,
    ensures
        found(node) == next_node(b@, from as int, depth as int),
        node matches FoundNode::Node(at, behind, inner) ==> at <= behind && from < behind && behind
            + 4 <= struct_end(b@) && 0 < inner <= 63,
{
    let (ended, outer) = match skip_ends(b, from, depth) {
        None => {
            return FoundNode::Bad;
        },
        Some(behind) => behind,
    };
    let begin: u64 = skip_padding(b, ended);
    if !is_token(b, begin, 1) {
        return FoundNode::End;
    }
    let end: u64 = read_be32(b, 8) + read_be32(b, 36);
    let len: usize = b.len();
    assert(end <= len);
    let z: usize = match find_name_end(b, begin as usize + 4, end as usize) {
        None => {
            return FoundNode::Bad;
        },
        Some(z) => z,
    };
    if outer >= 63 {
        return FoundNode::Bad;
    }
    let name: u64 = z as u64 - (begin + 4) + 1;
    let at: u64 = begin + 4 + (name + 3) / 4 * 4;
    match skip_properties(b, skip_padding(b, at)) {
        None => FoundNode::Bad,
        Some(behind) => match read_token(b, behind) {
            None => FoundNode::End,
            Some(_) => FoundNode::Node(at, behind, outer + 1),
        },
    }
}

/// The place of the properties of node `i`.
pub open spec fn properties_of(b: Seq<u8>, i: nat) -> int {
    match node_at(b, i) {
        NextNode::Node(at, _, _) => at,
        _ => 0,
    }
}

/// The value of a property of node `i`, in the order of the tree: that of the first with the
/// name.
pub open spec fn fdt_property(b: Seq<u8>, i: nat, name: Seq<u8>) -> Option<Seq<u8>> {
    match found_property(b, properties_of(b, i), name) {
        Some(at) => Some(property_value(b, at)),
        None => None,
    }
}

/// How many words an address or a size has by the properties from `at` on, where it has `n` if
/// they do not tell; the last that tells counts.
pub open spec fn cells_from(b: Seq<u8>, at: int, word: Seq<u8>, n: int) -> int
    decreases bytes_left(b, at),
{
    if token_at(b, at) == Some(4int) {
        cells_from(b, at + 4, word, n)
    } else if token_at(b, at) == Some(3int) && behind_property(b, at) > at {
        cells_from(
            b,
            behind_property(b, at),
            word,
            if property_name(b, at) == word {
                be32(b, at + 12)
            } else {
                n
            },
        )
    } else {
        n
    }
}

/// How many words an address and a size of node `i` have: the node around it tells.
pub open spec fn cells_of(b: Seq<u8>, i: nat) -> (int, int) {
    match node_at(b, i) {
        NextNode::Node(_, _, depth) => match parent_of(b, i, depth) {
            Some(at) => (
                cells_from(b, at, address_cells_word(), 2),
                cells_from(b, at, size_cells_word(), 1),
            ),
            None => (2, 1),
        },
        _ => (2, 1),
    }
}

/// A number of one or two words, as far as an address of the machine holds it.
pub open spec fn cells_at(v: Seq<u8>, at: int, cells: int) -> u64 {
    (if cells == 1 {
        be32(v, at)
    } else {
        address_at(v, at)
    }) as u64
}

/// The address ranges in a value from a place on: where each starts, and its size where it has
/// one. A range that is not whole ends them.
pub open spec fn ranges_from(v: Seq<u8>, at: int, address: int, size: int) -> Seq<
    (u64, Option<u64>),
>
    decreases v.len() - at,
{
    if at < 0 || address <= 0 || size < 0 || at + 4 * (address + size) > v.len() {
        Seq::empty()
    } else {
        seq![
            (
                cells_at(v, at, address),
                if size == 0 {
                    None
                } else {
                    Some(cells_at(v, at + 4 * address, size))
                },
            ),
        ] + ranges_from(v, at + 4 * (address + size), address, size)
    }
}

/// The name of the property with the address ranges of a node.
pub open spec fn reg_word() -> Seq<u8> {
    seq![114u8, 101, 103]
}

/// The address ranges of node `i`; none where it has none, or where a number in them has more
/// than two words.
pub open spec fn fdt_reg(b: Seq<u8>, i: nat) -> Option<Seq<(u64, Option<u64>)>> {
    let (address, size) = cells_of(b, i);
    match fdt_property(b, i, reg_word()) {
        Some(value) => if address > 2 || size > 2 {
            None
        } else {
            Some(ranges_from(value, 0, address, size))
        },
        None => None,
    }
}

/// Eight bytes, the high one first, as far as an address of the machine holds them.
pub open spec fn address_at(b: Seq<u8>, at: int) -> int {
    (be32(b, at) * 0x1_0000_0000 + be32(b, at + 4)) % (usize::MAX + 1)
}

/// Where the ranges start that are reserved from a place in the tree on: each is its start and
/// its size, and two zeros end the list, as does the end of the tree.
pub open spec fn reserved_from(b: Seq<u8>, at: int) -> Seq<u64>
    decreases b.len() - at,
{
    if at < 0 || at + 16 > b.len() || (address_at(b, at) == 0 && address_at(b, at + 8) == 0) {
        Seq::empty()
    } else {
        seq![address_at(b, at) as u64] + reserved_from(b, at + 16)
    }
}

/// Where the reserved ranges of memory start.
pub open spec fn reserved_starts(b: Seq<u8>) -> Seq<u64> {
    reserved_from(b, be32(b, 16))
}

/// Returns the value of a property of node `i`.
///
/// This is `fdt::node::FdtNode::property` on the node with that number of
/// `fdt::Fdt::all_nodes`. It goes through the properties of the node, passes
/// over padding, and returns the value of the first whose name is the one asked
/// for.
#[verifier::external_body]
fn node_property(data: &Vec<u8>, i: usize, name: &str) -> (value: Option<Vec<u8>>)
    requires
        head_ok(data@),
        node_at(data@, i as nat) is Node,
        readable_to(data@, properties_of(data@, i as nat), name.spec_bytes()),
    ensures
        value is Some <==> fdt_property(data@, i as nat, name.spec_bytes()) is Some,
        value matches Some(v) ==> Some(v@) == fdt_property(data@, i as nat, name.spec_bytes()),
{
    let tree = fdt::Fdt::new(data).ok()?;
    let node = tree.all_nodes().nth(i)?;
    let property = node.property(name)?;
    Some(property.value.to_vec())
}

/// Returns the address ranges of node `i`.
///
/// This is `fdt::node::FdtNode::reg` on the node with that number of
/// `fdt::Fdt::all_nodes`. The properties of the node around it tell how many
/// words an address and a size have, two and one where they do not; the value of
/// the first property `reg` is cut into pairs of them, and what is left over is
/// dropped. There are no ranges where one of the two has more than two words.
#[verifier::external_body]
fn node_reg(data: &Vec<u8>, i: usize) -> (ranges: Option<Vec<(u64, Option<u64>)>>)
    requires
        head_ok(data@),
        node_at(data@, i as nat) is Node,
        sized(data@, i as nat),
        readable_to(data@, properties_of(data@, i as nat), reg_word()),
    ensures
        ranges is Some <==> fdt_reg(data@, i as nat) is Some,
        ranges matches Some(v) ==> Some(v@) == fdt_reg(data@, i as nat),
{
    let tree = fdt::Fdt::new(data).ok()?;
    let node = tree.all_nodes().nth(i)?;
    let ranges = node.reg()?;
    Some(ranges.map(|r| (r.starting_address as u64, r.size.map(|n| n as u64))).collect())
}

/// Returns where the reserved ranges of memory start.
///
/// This is `fdt::Fdt::memory_reservations`, which reads pairs of numbers from
/// the place that the header of the tree tells, up to a pair of zeros or the
/// end of the tree. Only the addresses are kept.
#[verifier::external_body]
fn reservations(data: &Vec<u8>) -> (starts: Vec<u64>)
    requires
        head_ok(data@),
    ensures
        starts@ == reserved_starts(data@),
{
    match fdt::Fdt::new(data) {
        Ok(tree) => tree.memory_reservations().map(|r| r.address() as u64).collect(),
        Err(_) => Vec::new(),
    }
}

/// The value without the zeros at its end.
pub open spec fn trimmed(value: Seq<u8>) -> Seq<u8>
    decreases value.len(),
{
    if value.len() > 0 && value.last() == 0 {
        trimmed(value.drop_last())
    } else {
        value
    }
}

/// The word for memory.
pub open spec fn memory_word() -> Seq<u8> {
    seq![109u8, 101, 109, 111, 114, 121]
}

/// Tells whether a value is the word for memory, but for zeros at its end.
#[verifier::spinoff_prover]
pub fn is_memory(value: &Vec<u8>) -> (yes: bool)
    ensures
        yes <==> trimmed(value@) == memory_word(),
{
    let mut end: usize = value.len();
    assert(value@.take(end as int) =~= value@);
    while end > 0 && value[end - 1] == 0
        invariant
            end <= value@.len(),
            trimmed(value@) == trimmed(value@.take(end as int)),
        decreases end,
    {
        assert(value@.take(end as int).drop_last() =~= value@.take(end - 1));
        end = end - 1;
    }
    let word: Vec<u8> = vec![109, 101, 109, 111, 114, 121];
    assert(word@ =~= memory_word());
    assert(value@.take(end as int) =~= value@.subrange(0, end as int));
    same_bytes(value, 0, end, &word)
}

/// The range holds the image.
pub open spec fn holds_image(range: (u64, Option<u64>), image_start: int, image_end: int) -> bool {
    range.1 matches Some(size) && range.0 + size <= u64::MAX && range.0 <= image_start && image_end
        <= range.0 + size
}

/// The first of the ranges from `i` on that holds the image: its start and its end.
pub open spec fn image_range(
    ranges: Seq<(u64, Option<u64>)>,
    image_start: int,
    image_end: int,
    i: int,
) -> Option<(u64, u64)>
    decreases ranges.len() - i,
{
    if i < 0 || i >= ranges.len() {
        None
    } else if holds_image(ranges[i], image_start, image_end) {
        Some((ranges[i].0, (ranges[i].0 + ranges[i].1->Some_0) as u64))
    } else {
        image_range(ranges, image_start, image_end, i + 1)
    }
}

/// Finds the first range that holds the image.
pub fn find_image_range(ranges: &Vec<(u64, Option<u64>)>, image_start: u64, image_end: u64) -> (range:
    Option<(u64, u64)>)
    ensures
        range == image_range(ranges@, image_start as int, image_end as int, 0),
{
    let mut i: usize = 0;
    while i < ranges.len()
        invariant
            i <= ranges@.len(),
            image_range(ranges@, image_start as int, image_end as int, 0) == image_range(
                ranges@,
                image_start as int,
                image_end as int,
                i as int,
            ),
        decreases ranges@.len() - i,
    {
        let (start, size) = ranges[i];
        if let Some(n) = size {
            if n <= u64::MAX - start && start <= image_start && image_end <= start + n {
                return Some((start, start + n));
            }
        }
        i = i + 1;
    }
    None
}

/// The name of the property that tells what a node is of.
pub open spec fn device_type_word() -> Seq<u8> {
    "device_type".spec_bytes()
}

/// Node `i` is one of memory.
pub open spec fn memory_node(data: Seq<u8>, i: nat) -> bool {
    fdt_property(data, i, device_type_word()) matches Some(value) && trimmed(value)
        == memory_word()
}

/// What node `i` says of the memory that holds the image.
pub open spec fn node_range(data: Seq<u8>, image_start: int, image_end: int, i: nat) -> Option<
    (u64, u64),
> {
    if memory_node(data, i) && fdt_reg(data, i) is Some {
        image_range(fdt_reg(data, i)->Some_0, image_start, image_end, 0)
    } else {
        None
    }
}

/// The memory that holds the image, from the first of the nodes that has it, where node `i` is
/// the next from a place on, `depth` nodes deep.
///
/// Nothing behind the node that has it counts.
pub open spec fn tree_range(
    data: Seq<u8>,
    image_start: int,
    image_end: int,
    at: int,
    depth: int,
    i: nat,
) -> Result<(u64, u64), TreeError>
    decreases bytes_left(data, at),
{
    match next_node(data, at, depth) {
        NextNode::End => Err(TreeError::NoMemory),
        NextNode::Bad => Err(TreeError::BadTree),
        NextNode::Node(first, behind, inner) => if !readable_to(data, first, device_type_word()) || (
        memory_node(data, i) && (!sized(data, i) || !readable_to(data, first, reg_word()))) {
            Err(TreeError::BadTree)
        } else {
            match node_range(data, image_start, image_end, i) {
                Some(range) => Ok(range),
                None => if at < behind && behind < struct_end(data) {
                    tree_range(data, image_start, image_end, behind, inner, i + 1)
                } else {
                    Err(TreeError::NoMemory)
                },
            }
        },
    }
}

/// The end of the memory that can be used: the first reserved range behind the
/// image, or the end of the memory.
pub open spec fn usable_end(starts: Seq<u64>, image_end: int, memory_end: u64) -> u64
    decreases starts.len(),
{
    if starts.len() == 0 {
        memory_end
    } else {
        let rest = usable_end(starts.drop_last(), image_end, memory_end);
        if image_end <= starts.last() && starts.last() < rest {
            starts.last()
        } else {
            rest
        }
    }
}

/// Returns the end of the memory that can be used.
pub fn find_usable_end(starts: &Vec<u64>, image_end: u64, memory_end: u64) -> (end: u64)
    ensures
        end == usable_end(starts@, image_end as int, memory_end),
{
    let mut end: u64 = memory_end;
    let mut i: usize = 0;
    assert(starts@.take(0) =~= Seq::<u64>::empty());
    while i < starts.len()
        invariant
            i <= starts@.len(),
            end == usable_end(starts@.take(i as int), image_end as int, memory_end),
        decreases starts@.len() - i,
    {
        assert(starts@.take(i + 1).drop_last() =~= starts@.take(i as int));
        let start: u64 = starts[i];
        if image_end <= start && start < end {
            end = start;
        }
        i = i + 1;
    }
    assert(starts@.take(starts@.len() as int) =~= starts@);
    end
}

/// No reserved range starts in the memory that can be used, behind the image.
pub proof fn law_usable_is_not_reserved(starts: Seq<u64>, image_end: int, memory_end: u64, i: int)
    requires
        0 <= i < starts.len(),
        image_end <= starts[i],
    ensures
        usable_end(starts, image_end, memory_end) <= starts[i],
        usable_end(starts, image_end, memory_end) <= memory_end,
    decreases starts.len(),
{
    if i < starts.len() - 1 {
        law_usable_is_not_reserved(starts.drop_last(), image_end, memory_end, i);
    } else {
        lemma_usable_end(starts.drop_last(), image_end, memory_end);
    }
}

proof fn lemma_usable_end(starts: Seq<u64>, image_end: int, memory_end: u64)
    ensures
        usable_end(starts, image_end, memory_end) <= memory_end,
    decreases starts.len(),
{
    if starts.len() > 0 {
        lemma_usable_end(starts.drop_last(), image_end, memory_end);
    }
}

/// Why the memory of the machine is not known.
#[derive(Clone, Copy, Debug, PartialEq, Eq, Structural)]
pub enum TreeError {
    /// The tree cannot be read.
    BadTree,
    /// No node has the memory that holds the image.
    NoMemory,
}

/// Finds the memory that holds the image: its start, its end, and the end of what can be used.
pub fn platform_memory_range(data: &Vec<u8>, image_start: u64, image_end: u64) -> (range: Result<
    (u64, u64, u64),
    TreeError,
>)
    ensures
        !head_ok(data@) ==> range == Err::<(u64, u64, u64), TreeError>(TreeError::BadTree),
        head_ok(data@) ==> range == match tree_range(
            data@,
            image_start as int,
            image_end as int,
            struct_start(data@),
            0,
            0,
        ) {
            Err(e) => Err::<(u64, u64, u64), TreeError>(e),
            Ok((start, end)) => Ok(
                (start, end, usable_end(reserved_starts(data@), image_end as int, end)),
            ),
        },
{
    if !check_head(data) {
        return Err(TreeError::BadTree);
    }
    let len: usize = data.len();
    let mut at: u64 = read_be32(data, 8);
    let mut depth: u64 = 0;
    let mut i: usize = 0;
    let kind: Vec<u8> = "device_type".as_bytes_vec();
    let reg: Vec<u8> = vec![114, 101, 103];
    assert(reg@ =~= reg_word());
    let mut parents: Vec<Option<u64>> = Vec::new();
    while parents.len() < 64
        invariant
            parents@.len() <= 64,
            forall|k: int| 0 <= k < parents@.len() ==> #[trigger] parents@[k] is None,
        decreases 64 - parents@.len(),
    {
        parents.push(None);
    }
    let ghost wanted = tree_range(
        data@,
        image_start as int,
        image_end as int,
        struct_start(data@),
        0,
        0,
    );
    loop
        invariant
            head_ok(data@),
            kind@ == device_type_word(),
            reg@ == reg_word(),
            at <= struct_end(data@),
            depth <= 63,
            parents@.len() == 64,
            forall|k: int|
                0 <= k < 64 ==> match #[trigger] parents@[k] {
                    Some(p) => parent_of(data@, i as nat, k + 1) == Some(p as int) && p
                        <= struct_end(data@),
                    None => parent_of(data@, i as nat, k + 1) is None,
                },
            i <= at,
            struct_end(data@) <= data@.len() == len,
            node_at(data@, i as nat) == next_node(data@, at as int, depth as int),
            wanted == tree_range(
                data@,
                image_start as int,
                image_end as int,
                struct_start(data@),
                0,
                0,
            ),
            wanted == tree_range(
                data@,
                image_start as int,
                image_end as int,
                at as int,
                depth as int,
                i as nat,
            ),
        decreases struct_end(data@) - at,
    {
        let (first, behind, inner) = match find_next_node(data, at, depth) {
            FoundNode::End => {
                return Err(TreeError::NoMemory);
            },
            FoundNode::Bad => {
                return Err(TreeError::BadTree);
            },
            FoundNode::Node(first, behind, inner) => (first, behind, inner),
        };
        assert(properties_of(data@, i as nat) == first);
        if !check_to(data, first, &kind) {
            return Err(TreeError::BadTree);
        }
        let mut memory = false;
        if let Some(value) = node_property(data, i, "device_type") {
            memory = is_memory(&value);
        }
        if memory {
            assert(parent_of(data@, i as nat, inner as int) is None <==> parents@[inner - 1] is None);
            if let Some(parent) = parents[inner as usize - 1] {
                if !check_cells(data, parent) {
                    return Err(TreeError::BadTree);
                }
            }
            if !check_to(data, first, &reg) {
                return Err(TreeError::BadTree);
            }
            if let Some(ranges) = node_reg(data, i) {
                if let Some((start, end)) = find_image_range(&ranges, image_start, image_end) {
                    let starts = reservations(data);
                    return Ok((start, end, find_usable_end(&starts, image_end, end)));
                }
            }
        }
        let ghost had = parents@;
        parents.set(inner as usize, Some(first));
        proof {
            assert forall|k: int| 0 <= k < 64 implies match #[trigger] parents@[k] {
                Some(p) => parent_of(data@, (i + 1) as nat, k + 1) == Some(p as int) && p
                    <= struct_end(data@),
                None => parent_of(data@, (i + 1) as nat, k + 1) is None,
            } by {
                assert(node_at(data@, i as nat) == NextNode::Node(
                    first as int,
                    behind as int,
                    inner as int,
                ));
                if k != inner {
                    assert(parents@[k] == had[k]);
                }
            }
        }
        at = behind;
        depth = inner;
        i = i + 1;
    }
}

/// The mark of an EFI system table.
pub const EFI_SYSTEM_TABLE_SIGNATURE: u64 = 0x5453_5953_2049_4249;

/// The most entries of an EFI configuration table.
pub const EFI_MAX_TABLES: u64 = 64;

/// An entry of the EFI configuration table: what it is, and the address.
pub struct EfiTable {
    pub guid: Vec<u8>,
    pub address: u64,
}

/// What the entry of a device tree is named.
pub open spec fn device_tree_guid() -> Seq<u8> {
    seq![
        0xd5u8,
        0x21,
        0xb6,
        0xb1,
        0x9c,
        0xf1,
        0xa5,
        0x41,
        0x83,
        0x0b,
        0xd9,
        0x15,
        0x2c,
        0x69,
        0xaa,
        0xe0,
    ]
}

/// The address of the device tree, from the first of the entries from `i` on that is named so.
pub open spec fn efi_device_tree(tables: Seq<EfiTable>, i: int) -> Option<u64>
    decreases tables.len() - i,
{
    if i < 0 || i >= tables.len() {
        None
    } else if tables[i].guid@ == device_tree_guid() {
        Some(tables[i].address)
    } else {
        efi_device_tree(tables, i + 1)
    }
}

/// Finds the address of the device tree in an EFI system table.
pub fn device_tree_address(signature: u64, tables: &Vec<EfiTable>) -> (address: Option<u64>)
    ensures
        address == if signature != EFI_SYSTEM_TABLE_SIGNATURE || tables@.len() > EFI_MAX_TABLES {
            None
        } else {
            efi_device_tree(tables@, 0)
        },
{
    if signature != EFI_SYSTEM_TABLE_SIGNATURE || tables.len() as u64 > EFI_MAX_TABLES {
        return None;
    }
    let guid: Vec<u8> = vec![
        0xd5,
        0x21,
        0xb6,
        0xb1,
        0x9c,
        0xf1,
        0xa5,
        0x41,
        0x83,
        0x0b,
        0xd9,
        0x15,
        0x2c,
        0x69,
        0xaa,
        0xe0,
    ];
    assert(guid@ =~= device_tree_guid());
    let mut i: usize = 0;
    while i < tables.len()
        invariant
            i <= tables@.len(),
            guid@ == device_tree_guid(),
            signature == EFI_SYSTEM_TABLE_SIGNATURE,
            tables@.len() <= EFI_MAX_TABLES,
            efi_device_tree(tables@, 0) == efi_device_tree(tables@, i as int),
        decreases tables@.len() - i,
    {
        let entry = &tables[i];
        let len: usize = entry.guid.len();
        assert(entry.guid@.subrange(0, len as int) =~= entry.guid@);
        if same_bytes(&entry.guid, 0, len, &guid) {
            return Some(entry.address);
        }
        i = i + 1;
    }
    None
}

} // verus!

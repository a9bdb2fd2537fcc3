//! Building blocks of the fabric graph: nodes, their classification,
//! and the per-node congestion costs.

use vstd::prelude::*;

use crate::arith::sat_add;
use crate::arith::sat_mul;
use crate::arith::spec_sat_add;
use crate::arith::spec_sat_mul;

verus! {

/// Edge in the graph with a destination node and a base cost in milli-units.
#[derive(Debug, Clone)]
pub struct Edge {
    /// Destination node index
    pub node_id: usize,
    /// Base cost to traverse this edge, in milli-units
    pub cost: u64,
}

/// Basic representation of a node with an identifier and coordinates.
#[derive(Clone, Debug)]
pub struct Node {
    /// Identifier of the node within its tile
    pub id: String,
    /// X coordinate on the fabric
    pub x: u8,
    /// Y coordinate on the fabric
    pub y: u8,
}

/// Mathematical value of a [`Node`].
pub ghost struct NodeView {
    pub id: Seq<char>,
    pub x: int,
    pub y: int,
}

impl View for Node {
    type V = NodeView;

    open spec fn view(&self) -> NodeView {
        NodeView { id: self.id@, x: self.x as int, y: self.y as int }
    }
}

impl Node {
    /// Field-wise equality of two nodes.
    pub fn same(&self, other: &Node) -> (r: bool)
        ensures
            r == (self@ == other@),
    {
        let r = self.id == other.id && self.x == other.x && self.y == other.y;
        proof {
            if r {
                assert(self@ =~= other@);
            }
        }
        r
    }
}

/// Enum representing the type of a node
#[derive(Clone, Debug)]
pub enum NodeType {
    /// Input of a LUT
    LutInput(LutInput),
    /// Output of a LUT
    LutOutput(LutOutput),
    /// Default node (non-LUT)
    Default(DefaultNode),
}

/// Placeholder struct for default nodes
#[derive(Clone, Debug)]
pub struct DefaultNode;

/// Represents a LUT output node
#[derive(Clone, Debug)]
pub struct LutOutput;

/// Represents a LUT input node
#[derive(Clone, Debug)]
pub struct LutInput {
    /// The letter of the LUT (e.g., 'A', 'B')
    pub letter: char,
    /// Input pin number
    pub _input_pin: u8,
    /// Other LUT inputs sharing the same coordinates
    pub others: Vec<usize>,
}

impl LutInput {
    /// Returns all other connected LUT input indices
    pub fn _get_others(&self) -> (r: Vec<usize>)
        ensures
            r@ == self.others@,
    {
        self.others.clone()
    }
}

/// A node in the fabric graph with its type.
#[derive(Clone, Debug)]
pub struct GraphNode {
    /// The underlying node containing the identifier and coordinates
    pub node: Node,
    /// The type of node (input, output, or default)
    pub typ: NodeType,
}

/// Congestion bookkeeping of a single node.
///
/// `historic_cost` is in milli-units and only ever grows; `usage` counts the
/// nets that claimed the node in the current iteration and is reset to zero
/// by [`Costs::update`].
#[derive(Clone, Debug)]
pub struct Costs {
    /// Historic cost accumulated over routing iterations, in milli-units
    pub historic_cost: u64,
    /// Maximum number of nets that may use the node without conflict
    pub capacity: u32,
    /// Current usage count
    pub usage: u32,
}

/// The congestion-aware cost of entering a node:
/// `(base + historic) * (1 + usage)`, saturating at `u64::MAX`.
pub open spec fn spec_calc_costs(c: Costs, base_cost: u64) -> u64 {
    spec_sat_mul(spec_sat_add(base_cost, c.historic_cost), (1 + c.usage) as u64)
}

/// The historic cost written by [`Costs::update`]: unchanged unless the node
/// was over capacity, in which case `factor * overuse` is added on.
pub open spec fn spec_updated_historic(c: Costs, historic_factor: u64) -> u64 {
    if c.usage > c.capacity {
        spec_sat_add(c.historic_cost, spec_sat_mul(historic_factor, (c.usage - c.capacity) as u64))
    } else {
        c.historic_cost
    }
}

impl Costs {
    /// Create a fresh `Costs` record: no history, capacity one, unused.
    pub fn new() -> (r: Costs)
        ensures
            r.historic_cost == 0,
            r.capacity == 1,
            r.usage == 0,
    {
        Costs { historic_cost: 0, capacity: 1, usage: 0 }
    }

    /// Fold the current usage into the historic cost and reset the usage.
    ///
    /// Returns `true` if the node was congested (usage above capacity).
    /// The historic cost never decreases.
    pub fn update(&mut self, historic_factor: u64) -> (congested: bool)
        ensures
            congested == (old(self).usage > old(self).capacity),
            final(self).usage == 0,
            final(self).capacity == old(self).capacity,
            final(self).historic_cost == spec_updated_historic(*old(self), historic_factor),
            final(self).historic_cost >= old(self).historic_cost,
    {
        let congested = self.usage > self.capacity;
        if congested {
            let over_use = (self.usage - self.capacity) as u64;
            self.historic_cost = sat_add(self.historic_cost, sat_mul(historic_factor, over_use));
        }
        self.usage = 0;
        congested
    }

    /// Congestion-aware cost of entering this node over an edge with the
    /// given base cost.
    pub fn calc_costs(&self, base_cost: u64) -> (r: u64)
        ensures
            r == spec_calc_costs(*self, base_cost),
    {
        sat_mul(sat_add(base_cost, self.historic_cost), 1 + self.usage as u64)
    }
}

/// A character in `'0'..='9'`.
pub open spec fn is_dec_digit(c: char) -> bool {
    ('0' as u32) <= (c as u32) && (c as u32) <= ('9' as u32)
}

/// Every character is a decimal digit.
pub open spec fn all_digits(s: Seq<char>) -> bool {
    forall|i: int| 0 <= i < s.len() ==> is_dec_digit(#[trigger] s[i])
}

/// Value of a decimal digit string.
pub open spec fn dec_val(s: Seq<char>) -> int
    decreases s.len(),
{
    if s.len() == 0 {
        0
    } else {
        dec_val(s.drop_last()) * 10 + ((s.last() as u32) - ('0' as u32))
    }
}

/// A nonempty digit string between the given bounds of `s`, standing for a
/// value that fits in `u8`.
pub open spec fn u8_field(s: Seq<char>, from: int, to: int) -> bool {
    &&& 0 <= from < to <= s.len()
    &&& all_digits(s.subrange(from, to))
    &&& 0 <= dec_val(s.subrange(from, to)) <= 255
}

/// A digit string's value is never negative.
proof fn lemma_dec_val_nonneg(t: Seq<char>)
    requires
        all_digits(t),
    ensures
        dec_val(t) >= 0,
    decreases t.len(),
{
    if t.len() > 0 {
        assert(all_digits(t.drop_last())) by {
            assert(forall|i: int| 0 <= i < t.len() - 1 ==> t.drop_last()[i] == t[i]);
        }
        lemma_dec_val_nonneg(t.drop_last());
        assert(is_dec_digit(t.last()));
    }
}

/// Extending a digit string can only grow its value.
proof fn lemma_dec_val_prefix_le(t: Seq<char>, k: int)
    requires
        all_digits(t),
        0 <= k <= t.len(),
    ensures
        dec_val(t.subrange(0, k)) <= dec_val(t),
    decreases t.len(),
{
    if k == t.len() {
        assert(t.subrange(0, k) =~= t);
    } else {
        let u = t.drop_last();
        assert(all_digits(u)) by {
            assert(forall|i: int| 0 <= i < u.len() ==> u[i] == t[i]);
        }
        lemma_dec_val_prefix_le(u, k);
        assert(u.subrange(0, k) =~= t.subrange(0, k));
        lemma_dec_val_nonneg(u);
        assert(is_dec_digit(t.last()));
    }
}

/// The string splits at position `i` into an `X`-prefixed digit field and a
/// `Y`-prefixed digit field, both in `u8` range.
pub open spec fn coords_split(s: Seq<char>, i: int) -> bool {
    &&& 0 < i < s.len()
    &&& s[0] == 'X'
    &&& s[i] == 'Y'
    &&& u8_field(s, 1, i)
    &&& u8_field(s, i + 1, s.len() as int)
}

/// The identifier of a LUT input pin: `L`, a letter `A..H`, `_I`, and a pin
/// digit `0..3`.
pub open spec fn is_lut_input_id(s: Seq<char>) -> bool {
    &&& s.len() == 5
    &&& s[0] == 'L'
    &&& ('A' as u32) <= (s[1] as u32) && (s[1] as u32) <= ('H' as u32)
    &&& s[2] == '_'
    &&& s[3] == 'I'
    &&& ('0' as u32) <= (s[4] as u32) && (s[4] as u32) <= ('3' as u32)
}

/// The identifier of a LUT output: `L`, a letter `A..H`, and `_O`.
pub open spec fn is_lut_output_id(s: Seq<char>) -> bool {
    &&& s.len() == 4
    &&& s[0] == 'L'
    &&& ('A' as u32) <= (s[1] as u32) && (s[1] as u32) <= ('H' as u32)
    &&& s[2] == '_'
    &&& s[3] == 'O'
}

/// What went wrong while reading a fabric or identifier string.
#[derive(Clone, Copy, Debug, PartialEq, Eq, Structural)]
pub enum ParseError {
    /// A coordinate block is not of the form `X<number>Y<number>` with both
    /// numbers in `u8` range.
    BadCoords,
    /// A pip line does not have the expected fields.
    BadLine,
}

/// Parse the digit run `s[from..to]` as a `u8`.
///
/// Returns `Ok` exactly when the run is nonempty, all digits, and the value
/// fits.
fn parse_u8_digits(s: &str, from: usize, to: usize) -> (r: Result<u8, ParseError>)
    requires
        from <= to <= s@.len(),
    ensures
        r is Ok <==> u8_field(s@, from as int, to as int),
        r matches Ok(v) ==> v == dec_val(s@.subrange(from as int, to as int)),
{
    let ghost whole = s@.subrange(from as int, to as int);
    if from == to {
        return Err(ParseError::BadCoords);
    }
    let mut val: u32 = 0;
    let mut i = from;
    while i < to
        invariant
            from <= i <= to <= s@.len(),
            from < to,
            whole == s@.subrange(from as int, to as int),
            all_digits(s@.subrange(from as int, i as int)),
            val == dec_val(s@.subrange(from as int, i as int)),
            val <= 255,
        decreases to - i,
    {
        let c = s.get_char(i);
        let cu = c as u32;
        if cu < '0' as u32 || cu > '9' as u32 {
            proof {
                // the offending character sits inside the field
                assert(whole[i - from] == s@[i as int]);
                assert(!is_dec_digit(whole[i - from]));
            }
            return Err(ParseError::BadCoords);
        }
        let d = cu - '0' as u32;
        let nv = val * 10 + d;
        proof {
            let pre = s@.subrange(from as int, i as int);
            assert(s@.subrange(from as int, i + 1).drop_last() =~= pre);
            assert(s@.subrange(from as int, i + 1).last() == s@[i as int]);
        }
        if nv > 255 {
            proof {
                // any full field extending this prefix is already too large
                if u8_field(s@, from as int, to as int) {
                    assert(whole.subrange(0, i + 1 - from) =~= s@.subrange(from as int, i + 1));
                    lemma_dec_val_prefix_le(whole, i + 1 - from);
                }
            }
            return Err(ParseError::BadCoords);
        }
        val = nv;
        i += 1;
    }
    proof {
        assert(s@.subrange(from as int, to as int) == s@.subrange(from as int, i as int));
    }
    Ok(val as u8)
}

/// Parse coordinates from a string of the form `X<num>Y<num>`, splitting at
/// the first `Y`.  On success the returned pair is the value of the two
/// digit runs.
pub fn from_str_coords(s: &str) -> (r: Result<(u8, u8), ParseError>)
    ensures
        r is Ok <==> exists|i: int| coords_split(s@, i),
        r matches Ok(xy) ==> exists|i: int|
            #[trigger] coords_split(s@, i) && xy.0 == dec_val(s@.subrange(1, i)) && xy.1
                == dec_val(s@.subrange(i + 1, s@.len() as int)),
{
    let len = s.unicode_len();
    if len < 1 || s.get_char(0) != 'X' {
        proof {
            assert forall|i: int| !coords_split(s@, i) by {}
        }
        return Err(ParseError::BadCoords);
    }
    let mut i: usize = 1;
    let mut ypos: usize = 0;
    let mut found = false;
    while i < len && !found
        invariant
            1 <= i <= len,
            len == s@.len(),
            found ==> 1 <= ypos < len && s@[ypos as int] == 'Y' && ypos == i,
            forall|j: int| 1 <= j < i ==> s@[j] != 'Y',
        decreases len - i, (if found { 0int } else { 1int }),
    {
        if s.get_char(i) == 'Y' {
            ypos = i;
            found = true;
        } else {
            i += 1;
        }
    }
    if !found {
        proof {
            assert forall|i2: int| !coords_split(s@, i2) by {
                if 0 < i2 < s@.len() {
                    assert(s@[i2] != 'Y');
                }
            }
        }
        return Err(ParseError::BadCoords);
    }
    proof {
        // the split can only sit at the first Y: a later split would need a
        // digit where this Y stands, an earlier one a Y among the digits
        assert(!is_dec_digit('Y')) by {
            assert(('Y' as u32) > ('9' as u32));
        }
        assert forall|i2: int| coords_split(s@, i2) implies i2 == ypos as int by {
            if i2 < ypos as int {
                assert(s@[i2] != 'Y');
            }
            if i2 > ypos as int {
                assert(all_digits(s@.subrange(1, i2)));
                assert(s@.subrange(1, i2)[ypos - 1] == s@[ypos as int]);
            }
        }
    }
    let x = match parse_u8_digits(s, 1, ypos) {
        Ok(v) => v,
        Err(e) => {
            proof {
                assert(!u8_field(s@, 1, ypos as int));
            }
            return Err(e);
        }
    };
    let y = match parse_u8_digits(s, ypos + 1, len) {
        Ok(v) => v,
        Err(e) => {
            proof {
                assert(!u8_field(s@, ypos + 1, s@.len() as int));
            }
            return Err(e);
        }
    };
    proof {
        assert(coords_split(s@, ypos as int));
    }
    Ok((x, y))
}

impl GraphNode {
    /// Parse a node from a coordinate block string and an identifier.
    ///
    /// The node type is read off the identifier: LUT input pins carry their
    /// letter and pin number, LUT outputs and all other identifiers carry no
    /// payload.
    pub fn parse(block: &str, id: &str) -> (r: Result<GraphNode, ParseError>)
        ensures
            r is Ok <==> exists|i: int| coords_split(block@, i),
            r matches Ok(g) ==> {
                &&& g.node.id@ == id@
                &&& exists|i: int|
                    #[trigger] coords_split(block@, i) && g.node.x == dec_val(
                        block@.subrange(1, i),
                    ) && g.node.y == dec_val(block@.subrange(i + 1, block@.len() as int))
                &&& (g.typ is LutInput <==> is_lut_input_id(id@))
                &&& (g.typ is LutOutput <==> is_lut_output_id(id@))
                &&& (g.typ matches NodeType::LutInput(li) ==> li.letter == id@[1]
                    && li._input_pin == (id@[4] as u32) - ('0' as u32) && li.others@.len() == 0)
            },
    {
        let (x, y) = match from_str_coords(block) {
            Ok(xy) => xy,
            Err(e) => {
                return Err(e);
            }
        };
        let idlen = id.unicode_len();
        let typ: NodeType = if idlen == 5 && id.get_char(0) == 'L' && id.get_char(1) as u32
            >= 'A' as u32 && id.get_char(1) as u32 <= 'H' as u32 && id.get_char(2) == '_'
            && id.get_char(3) == 'I' && id.get_char(4) as u32 >= '0' as u32 && id.get_char(4) as u32
            <= '3' as u32 {
            let letter = id.get_char(1);
            let pin = (id.get_char(4) as u32 - '0' as u32) as u8;
            NodeType::LutInput(LutInput { letter, _input_pin: pin, others: Vec::new() })
        } else if idlen == 4 && id.get_char(0) == 'L' && id.get_char(1) as u32 >= 'A' as u32
            && id.get_char(1) as u32 <= 'H' as u32 && id.get_char(2) == '_' && id.get_char(3)
            == 'O' {
            NodeType::LutOutput(LutOutput {})
        } else {
            NodeType::Default(DefaultNode {})
        };
        Ok(GraphNode { node: Node { id: id.to_owned(), x, y }, typ })
    }
}

impl Default for Costs {
    /// Same record as [`Costs::new`].
    fn default() -> (r: Costs)
        ensures
            r.historic_cost == 0,
            r.capacity == 1,
            r.usage == 0,
    {
        Costs { historic_cost: 0, capacity: 1, usage: 0 }
    }
}

} // verus!

//! Stable identity. PipeWire numeric ids are not stable across reconnect, so zones
//! bind to logical keys: a node is keyed by `media.class|node.name`, a port by its
//! node key, its direction and its name.

use vstd::prelude::*;
use vstd::string::*;

use crate::text::{lacks, part_before, lemma_part_before_concat};
use crate::wire::Direction;

verus! {

/// The stable key of a node: `media_class|node_name`.
pub open spec fn node_key_of(node_name: Seq<char>, media_class: Seq<char>) -> Seq<char> {
    media_class + seq!['|'] + node_name
}

/// The tag a direction contributes to a port key.
pub open spec fn direction_tag(dir: Direction) -> Seq<char> {
    match dir {
        Direction::In => seq!['i', 'n'],
        Direction::Out => seq!['o', 'u', 't'],
    }
}

/// The stable key of a port: `node_key#in:port_name` or `node_key#out:port_name`.
pub open spec fn port_key_of(node_key: Seq<char>, port_name: Seq<char>, dir: Direction) -> Seq<char> {
    node_key + seq!['#'] + direction_tag(dir) + seq![':'] + port_name
}

/// Stable key for a device/node: `media.class|node.name`.
pub fn node_key(node_name: &str, media_class: &str) -> (k: String)
    ensures
        k@ == node_key_of(node_name@, media_class@),
{
    let s = String::from_str(media_class);
    proof {
        reveal_strlit("|");
    }
    let s = s.concat("|");
    let s = s.concat(node_name);
    proof {
        assert(s@ =~= node_key_of(node_name@, media_class@));
    }
    s
}

/// Stable key for a port, derived from its owning node's key.
pub fn port_key(node_key: &str, port_name: &str, dir: Direction) -> (k: String)
    ensures
        k@ == port_key_of(node_key@, port_name@, dir),
{
    proof {
        reveal_strlit("#in:");
        reveal_strlit("#out:");
    }
    let s = String::from_str(node_key);
    let s = match dir {
        Direction::In => s.concat("#in:"),
        Direction::Out => s.concat("#out:"),
    };
    let s = s.concat(port_name);
    proof {
        assert(s@ =~= port_key_of(node_key@, port_name@, dir));
    }
    s
}

/// Node keys are injective for media classes without `|`: two keys are equal only
/// when both the media class and the node name are.
pub proof fn node_key_injective(n1: Seq<char>, c1: Seq<char>, n2: Seq<char>, c2: Seq<char>)
    requires
        lacks(c1, '|'),
        lacks(c2, '|'),
        node_key_of(n1, c1) == node_key_of(n2, c2),
    ensures
        n1 == n2,
        c1 == c2,
{
    lemma_part_before_concat(c1, '|', n1);
    lemma_part_before_concat(c2, '|', n2);
    let k = node_key_of(n1, c1);
    assert(k.skip(c1.len() + 1int) =~= n1);
    assert(k.skip(c2.len() + 1int) =~= n2);
}

/// Ports on the same node with the same name but opposite directions get different keys.
pub proof fn port_key_distinguishes_direction(node_key: Seq<char>, port_name: Seq<char>)
    ensures
        port_key_of(node_key, port_name, Direction::In) != port_key_of(node_key, port_name, Direction::Out),
{
    let a = port_key_of(node_key, port_name, Direction::In);
    let b = port_key_of(node_key, port_name, Direction::Out);
    let i: int = node_key.len() + 1int;
    assert(a[i] == 'i');
    assert(b[i] == 'o');
}

/// The node part of a port key (the text before its first `#`) is the node key it was
/// built from, when that node key holds no `#`.
pub proof fn port_key_names_its_node(node_key: Seq<char>, port_name: Seq<char>, dir: Direction)
    requires
        lacks(node_key, '#'),
    ensures
        part_before(port_key_of(node_key, port_name, dir), '#') == node_key,
{
    let rest = direction_tag(dir) + seq![':'] + port_name;
    assert(port_key_of(node_key, port_name, dir) =~= node_key + seq!['#'] + rest);
    lemma_part_before_concat(node_key, '#', rest);
}

} // verus!

//! What a configuration names: the line colour as a hex string, and the
//! algorithm by its name.

use vstd::prelude::*;
use vstd::string::*;
use crate::algorithms::aldous_broder::AldousBroder;
use crate::algorithms::bfs::Bfs;
use crate::algorithms::binary_tree::BinaryTree;
use crate::algorithms::cellular_automata::CellularAutomata;
use crate::algorithms::dfs_iterative::DfsIterative;
use crate::algorithms::drunkards_walk::DrunkardsWalk;
use crate::algorithms::eller::Eller;
use crate::algorithms::growing_tree::GrowingTree;
use crate::algorithms::hamiltonian::Hamiltonian;
use crate::algorithms::hunt_and_kill::HuntAndKill;
use crate::algorithms::kruskal::Kruskal;
use crate::algorithms::prim::Prim;
use crate::algorithms::random_obstacle::RandomObstacle;
use crate::algorithms::recursive_backtracking::RecursiveBacktracking;
use crate::algorithms::recursive_backtracking_braided::RecursiveBacktrackingBraided;
use crate::algorithms::recursive_division::RecursiveDivision;
use crate::algorithms::sidewinder::Sidewinder;
use crate::algorithms::voronoi::Voronoi;
use crate::algorithms::wilsons::Wilsons;
use crate::algorithms::{generated, valid_size, MazeGenerator};
use crate::complexity::Complexity;
use crate::grid::Grid;
use crate::maze::Maze;

verus! {

/// The characters that count as white space.
pub open spec fn is_space(c: char) -> bool {
    let code = c as u32;
    ||| 9 <= code <= 13
    ||| code == 0x20
    ||| code == 0x85
    ||| code == 0xA0
    ||| code == 0x1680
    ||| 0x2000 <= code <= 0x200A
    ||| code == 0x2028
    ||| code == 0x2029
    ||| code == 0x202F
    ||| code == 0x205F
    ||| code == 0x3000
}

/// `s` without the white space at its start.
pub open spec fn trim_start(s: Seq<char>) -> Seq<char>
    decreases s.len(),
{
    if s.len() > 0 && is_space(s[0]) {
        trim_start(s.drop_first())
    } else {
        s
    }
}

/// `s` without the white space at its end.
pub open spec fn trim_end(s: Seq<char>) -> Seq<char>
    decreases s.len(),
{
    if s.len() > 0 && is_space(s.last()) {
        trim_end(s.drop_last())
    } else {
        s
    }
}

/// The part of a colour string that holds the digits: the string without
/// the white space around it and without one leading `#`.
pub open spec fn color_digits(hex: Seq<char>) -> Seq<char> {
    let trimmed = trim_end(trim_start(hex));
    if trimmed.len() > 0 && trimmed[0] == '#' {
        trimmed.drop_first()
    } else {
        trimmed
    }
}

/// The value of a hexadecimal digit, in either case.
pub open spec fn digit_value(c: char) -> Option<int> {
    let code = c as u32;
    if 48 <= code <= 57 {
        Some(code - 48)
    } else if 97 <= code <= 102 {
        Some(code - 87)
    } else if 65 <= code <= 70 {
        Some(code - 55)
    } else {
        None
    }
}

/// The value of a colour channel written with the two characters `high`
/// and `low`: two hexadecimal digits, or a plus sign and one digit.
pub open spec fn channel_value(high: char, low: char) -> Option<int> {
    if high == '+' {
        digit_value(low)
    } else if digit_value(high) is Some && digit_value(low) is Some {
        Some(16 * digit_value(high)->Some_0 + digit_value(low)->Some_0)
    } else {
        None
    }
}

/// What parsing a colour string gives: the three channels, or the message
/// that says what is wrong, the length first and then the first channel
/// that cannot be read.
pub open spec fn parsed_color(hex: Seq<char>) -> Result<Seq<u8>, Seq<char>> {
    let digits = color_digits(hex);
    if digits.len() != 6 {
        Err("Hex color must be 6 digits, got: "@ + digits)
    } else if channel_value(digits[0], digits[1]) is None {
        Err("Invalid hex color (R): invalid digit found in string"@)
    } else if channel_value(digits[2], digits[3]) is None {
        Err("Invalid hex color (G): invalid digit found in string"@)
    } else if channel_value(digits[4], digits[5]) is None {
        Err("Invalid hex color (B): invalid digit found in string"@)
    } else {
        Ok(
            seq![
                channel_value(digits[0], digits[1])->Some_0 as u8,
                channel_value(digits[2], digits[3])->Some_0 as u8,
                channel_value(digits[4], digits[5])->Some_0 as u8,
            ],
        )
    }
}

fn space(c: char) -> (yes: bool)
    ensures
        yes == is_space(c),
{
    let code = c as u32;
    (9 <= code && code <= 13) || code == 0x20 || code == 0x85 || code == 0xA0 || code == 0x1680 || (
    0x2000 <= code && code <= 0x200A) || code == 0x2028 || code == 0x2029 || code == 0x202F || code
        == 0x205F || code == 0x3000
}

fn digit(c: char) -> (value: Option<u8>)
    ensures
        value is Some <==> digit_value(c) is Some,
        value matches Some(v) ==> digit_value(c) == Some(v as int) && v < 16,
{
    let code = c as u32;
    if 48 <= code && code <= 57 {
        Some((code - 48) as u8)
    } else if 97 <= code && code <= 102 {
        Some((code - 87) as u8)
    } else if 65 <= code && code <= 70 {
        Some((code - 55) as u8)
    } else {
        None
    }
}

fn channel(high: char, low: char) -> (value: Option<u8>)
    ensures
        value is Some <==> channel_value(high, low) is Some,
        value matches Some(v) ==> channel_value(high, low) == Some(v as int),
{
    if high == '+' {
        digit(low)
    } else {
        match (digit(high), digit(low)) {
            (Some(h), Some(l)) => Some(16 * h + l),
            _ => None,
        }
    }
}

proof fn lemma_trim_start(s: Seq<char>, from: int)
    requires
        0 <= from <= s.len(),
        forall|i: int| 0 <= i < from ==> is_space(s[i]),
        from < s.len() ==> !is_space(s[from]),
    ensures
        trim_start(s) == s.subrange(from, s.len() as int),
    decreases from,
{
    if from == 0 {
        assert(s.subrange(0, s.len() as int) =~= s);
    } else {
        let rest = s.drop_first();
        assert forall|i: int| 0 <= i < from - 1 implies is_space(rest[i]) by {
            assert(rest[i] == s[i + 1]);
        }
        lemma_trim_start(rest, from - 1);
        assert(rest.subrange(from - 1, rest.len() as int) =~= s.subrange(from, s.len() as int));
    }
}

proof fn lemma_trim_end(s: Seq<char>, to: int)
    requires
        0 <= to <= s.len(),
        forall|i: int| to <= i < s.len() ==> is_space(s[i]),
        to > 0 ==> !is_space(s[to - 1]),
    ensures
        trim_end(s) == s.subrange(0, to),
    decreases s.len() - to,
{
    if to == s.len() {
        assert(s.subrange(0, to) =~= s);
    } else {
        let rest = s.drop_last();
        lemma_trim_end(rest, to);
        assert(rest.subrange(0, to) =~= s.subrange(0, to));
    }
}

/// Reads a colour written as six hexadecimal digits, with or without a
/// leading `#` and with any white space around it. Each channel is two
/// digits, or a plus sign and one digit.
pub fn parse_hex_color(hex: &str) -> (color: Result<[u8; 3], String>)
    ensures
        color matches Ok(rgb) ==> parsed_color(hex@) == Ok::<Seq<u8>, Seq<char>>(rgb@),
        color matches Err(message) ==> parsed_color(hex@) == Err::<Seq<u8>, Seq<char>>(message@),
{
    let n = hex.unicode_len();
    let mut from: usize = 0;
    while from < n && space(hex.get_char(from))
        invariant
            n == hex@.len(),
            0 <= from <= n,
            forall|i: int| 0 <= i < from ==> is_space(hex@[i]),
        decreases n - from,
    {
        from += 1;
    }
    let mut to: usize = n;
    while to > from && space(hex.get_char(to - 1))
        invariant
            n == hex@.len(),
            from <= to <= n,
            forall|i: int| to <= i < n ==> is_space(hex@[i]),
        decreases to,
    {
        to -= 1;
    }
    let ghost started = hex@.subrange(from as int, n as int);
    let ghost trimmed = hex@.subrange(from as int, to as int);
    proof {
        lemma_trim_start(hex@, from as int);
        assert forall|i: int| to - from <= i < started.len() implies is_space(started[i]) by {
            assert(started[i] == hex@[i + from]);
        }
        if to > from {
            assert(started[to - from - 1] == hex@[to - 1]);
        }
        lemma_trim_end(started, to - from);
        assert(started.subrange(0, to - from) =~= trimmed);
    }
    if from < to && hex.get_char(from) == '#' {
        from += 1;
        proof {
            assert(trimmed.drop_first() =~= hex@.subrange(from as int, to as int));
        }
    }
    let rest = hex.substring_char(from, to);
    assert(rest@ == color_digits(hex@));
    if to - from != 6 {
        let message = String::from_str("Hex color must be 6 digits, got: ").concat(rest);
        return Err(message);
    }
    let red = channel(rest.get_char(0), rest.get_char(1));
    let green = channel(rest.get_char(2), rest.get_char(3));
    let blue = channel(rest.get_char(4), rest.get_char(5));
    match red {
        None => Err(String::from_str("Invalid hex color (R): invalid digit found in string")),
        Some(r) => match green {
            None => Err(String::from_str("Invalid hex color (G): invalid digit found in string")),
            Some(g) => match blue {
                None => Err(
                    String::from_str("Invalid hex color (B): invalid digit found in string"),
                ),
                Some(b) => {
                    let rgb = [r, g, b];
                    assert(rgb@ =~= seq![r, g, b]);
                    Ok(rgb)
                },
            },
        },
    }
}

/// The code of `c` once letters are put in lower case: the capital Latin
/// letters, and the Kelvin sign, which lowers to `k`.
pub open spec fn lowered(c: char) -> u32 {
    let code = c as u32;
    if 65 <= code <= 90 {
        (code + 32) as u32
    } else if code == 0x212A {
        107
    } else {
        code
    }
}

/// `text` spells `name` when letters are put in lower case.
pub open spec fn spells(text: Seq<char>, name: Seq<char>) -> bool {
    &&& text.len() == name.len()
    &&& forall|i: int| 0 <= i < text.len() ==> lowered(#[trigger] text[i]) == name[i] as u32
}

fn lower(c: char) -> (code: u32)
    ensures
        code == lowered(c),
{
    let code = c as u32;
    if 65 <= code && code <= 90 {
        code + 32
    } else if code == 0x212A {
        107
    } else {
        code
    }
}

fn is_spelled(text: &str, name: &str) -> (same: bool)
    ensures
        same == spells(text@, name@),
{
    let n = text.unicode_len();
    if n != name.unicode_len() {
        return false;
    }
    let mut i: usize = 0;
    while i < n
        invariant
            n == text@.len(),
            n == name@.len(),
            0 <= i <= n,
            forall|k: int| 0 <= k < i ==> lowered(#[trigger] text@[k]) == name@[k] as u32,
        decreases n - i,
    {
        if lower(text.get_char(i)) != name.get_char(i) as u32 {
            return false;
        }
        i += 1;
    }
    true
}

/// The generation algorithms by name.
#[derive(Clone, Copy, Debug, PartialEq, Eq, Structural)]
pub enum Algorithm {
    RecursiveBacktracking,
    Kruskal,
    Prim,
    AldousBroder,
    Wilsons,
    RecursiveDivision,
    GrowingTree,
    HuntAndKill,
    BinaryTree,
    Sidewinder,
    Eller,
    DfsIterative,
    Bfs,
    RecursiveBacktrackingBraided,
    CellularAutomata,
    DrunkardsWalk,
    RandomObstacle,
    Hamiltonian,
    Voronoi,
}

impl Algorithm {
    /// The name of the algorithm, in lower case with underscores.
    pub open spec fn name(self) -> Seq<char> {
        match self {
            Algorithm::RecursiveBacktracking => "recursive_backtracking"@,
            Algorithm::Kruskal => "kruskal"@,
            Algorithm::Prim => "prim"@,
            Algorithm::AldousBroder => "aldous_broder"@,
            Algorithm::Wilsons => "wilsons"@,
            Algorithm::RecursiveDivision => "recursive_division"@,
            Algorithm::GrowingTree => "growing_tree"@,
            Algorithm::HuntAndKill => "hunt_and_kill"@,
            Algorithm::BinaryTree => "binary_tree"@,
            Algorithm::Sidewinder => "sidewinder"@,
            Algorithm::Eller => "eller"@,
            Algorithm::DfsIterative => "dfs_iterative"@,
            Algorithm::Bfs => "bfs"@,
            Algorithm::RecursiveBacktrackingBraided => "recursive_backtracking_braided"@,
            Algorithm::CellularAutomata => "cellular_automata"@,
            Algorithm::DrunkardsWalk => "drunkards_walk"@,
            Algorithm::RandomObstacle => "random_obstacle"@,
            Algorithm::Hamiltonian => "hamiltonian"@,
            Algorithm::Voronoi => "voronoi"@,
        }
    }

    /// The name of the algorithm with hyphens in place of underscores.
    pub open spec fn hyphened(self) -> Seq<char> {
        match self {
            Algorithm::RecursiveBacktracking => "recursive-backtracking"@,
            Algorithm::Kruskal => "kruskal"@,
            Algorithm::Prim => "prim"@,
            Algorithm::AldousBroder => "aldous-broder"@,
            Algorithm::Wilsons => "wilsons"@,
            Algorithm::RecursiveDivision => "recursive-division"@,
            Algorithm::GrowingTree => "growing-tree"@,
            Algorithm::HuntAndKill => "hunt-and-kill"@,
            Algorithm::BinaryTree => "binary-tree"@,
            Algorithm::Sidewinder => "sidewinder"@,
            Algorithm::Eller => "eller"@,
            Algorithm::DfsIterative => "dfs-iterative"@,
            Algorithm::Bfs => "bfs"@,
            Algorithm::RecursiveBacktrackingBraided => "recursive-backtracking-braided"@,
            Algorithm::CellularAutomata => "cellular-automata"@,
            Algorithm::DrunkardsWalk => "drunkards-walk"@,
            Algorithm::RandomObstacle => "random-obstacle"@,
            Algorithm::Hamiltonian => "hamiltonian"@,
            Algorithm::Voronoi => "voronoi"@,
        }
    }

    /// `text` names the algorithm: it spells its name, with underscores or
    /// with hyphens, in any case.
    pub open spec fn named_by(self, text: Seq<char>) -> bool {
        spells(text, self.name()) || spells(text, self.hyphened())
    }

    /// The algorithm at position `i` of the list in which names are looked
    /// up.
    pub open spec fn listed(i: int) -> Algorithm {
        if i == 0 {
            Algorithm::RecursiveBacktracking
        } else if i == 1 {
            Algorithm::Kruskal
        } else if i == 2 {
            Algorithm::Prim
        } else if i == 3 {
            Algorithm::AldousBroder
        } else if i == 4 {
            Algorithm::Wilsons
        } else if i == 5 {
            Algorithm::RecursiveDivision
        } else if i == 6 {
            Algorithm::GrowingTree
        } else if i == 7 {
            Algorithm::HuntAndKill
        } else if i == 8 {
            Algorithm::BinaryTree
        } else if i == 9 {
            Algorithm::Sidewinder
        } else if i == 10 {
            Algorithm::Eller
        } else if i == 11 {
            Algorithm::DfsIterative
        } else if i == 12 {
            Algorithm::Bfs
        } else if i == 13 {
            Algorithm::RecursiveBacktrackingBraided
        } else if i == 14 {
            Algorithm::CellularAutomata
        } else if i == 15 {
            Algorithm::DrunkardsWalk
        } else if i == 16 {
            Algorithm::RandomObstacle
        } else if i == 17 {
            Algorithm::Hamiltonian
        } else {
            Algorithm::Voronoi
        }
    }

    /// The algorithms in the order in which names are looked up.
    pub fn all() -> (list: [Algorithm; 19])
        ensures
            forall|i: int| 0 <= i < 19 ==> list@[i] == Algorithm::listed(i),
    {
        [
            Algorithm::RecursiveBacktracking,
            Algorithm::Kruskal,
            Algorithm::Prim,
            Algorithm::AldousBroder,
            Algorithm::Wilsons,
            Algorithm::RecursiveDivision,
            Algorithm::GrowingTree,
            Algorithm::HuntAndKill,
            Algorithm::BinaryTree,
            Algorithm::Sidewinder,
            Algorithm::Eller,
            Algorithm::DfsIterative,
            Algorithm::Bfs,
            Algorithm::RecursiveBacktrackingBraided,
            Algorithm::CellularAutomata,
            Algorithm::DrunkardsWalk,
            Algorithm::RandomObstacle,
            Algorithm::Hamiltonian,
            Algorithm::Voronoi,
        ]
    }

    /// The algorithm that `s` names, if any: the first of the list whose
    /// name `s` spells, with underscores or with hyphens, in any case.
    pub fn from_str(s: &str) -> (found: Option<Algorithm>)
        ensures
            found matches Some(algorithm) ==> exists|i: int|
                0 <= i < 19 && algorithm == Algorithm::listed(i) && #[trigger] Algorithm::listed(
                    i,
                ).named_by(s@) && forall|j: int|
                    0 <= j < i ==> !(#[trigger] Algorithm::listed(j)).named_by(s@),
            found is None ==> forall|i: int|
                0 <= i < 19 ==> !(#[trigger] Algorithm::listed(i)).named_by(s@),
    {
        let list = Algorithm::all();
        let mut i: usize = 0;
        while i < 19
            invariant
                0 <= i <= 19,
                forall|k: int| 0 <= k < 19 ==> list@[k] == Algorithm::listed(k),
                forall|j: int| 0 <= j < i ==> !(#[trigger] Algorithm::listed(j)).named_by(s@),
            decreases 19 - i,
        {
            let algorithm = list[i];
            if is_spelled(s, algorithm.to_string()) || is_spelled(s, algorithm.with_hyphens()) {
                assert(Algorithm::listed(i as int).named_by(s@));
                return Some(algorithm);
            }
            i += 1;
        }
        None
    }

    /// The name of the algorithm, in lower case with underscores.
    pub fn to_string(&self) -> (name: &'static str)
        ensures
            name@ == self.name(),
    {
        match self {
            Algorithm::RecursiveBacktracking => "recursive_backtracking",
            Algorithm::Kruskal => "kruskal",
            Algorithm::Prim => "prim",
            Algorithm::AldousBroder => "aldous_broder",
            Algorithm::Wilsons => "wilsons",
            Algorithm::RecursiveDivision => "recursive_division",
            Algorithm::GrowingTree => "growing_tree",
            Algorithm::HuntAndKill => "hunt_and_kill",
            Algorithm::BinaryTree => "binary_tree",
            Algorithm::Sidewinder => "sidewinder",
            Algorithm::Eller => "eller",
            Algorithm::DfsIterative => "dfs_iterative",
            Algorithm::Bfs => "bfs",
            Algorithm::RecursiveBacktrackingBraided => "recursive_backtracking_braided",
            Algorithm::CellularAutomata => "cellular_automata",
            Algorithm::DrunkardsWalk => "drunkards_walk",
            Algorithm::RandomObstacle => "random_obstacle",
            Algorithm::Hamiltonian => "hamiltonian",
            Algorithm::Voronoi => "voronoi",
        }
    }

    /// The name of the algorithm with hyphens in place of underscores.
    pub fn with_hyphens(&self) -> (name: &'static str)
        ensures
            name@ == self.hyphened(),
    {
        match self {
            Algorithm::RecursiveBacktracking => "recursive-backtracking",
            Algorithm::Kruskal => "kruskal",
            Algorithm::Prim => "prim",
            Algorithm::AldousBroder => "aldous-broder",
            Algorithm::Wilsons => "wilsons",
            Algorithm::RecursiveDivision => "recursive-division",
            Algorithm::GrowingTree => "growing-tree",
            Algorithm::HuntAndKill => "hunt-and-kill",
            Algorithm::BinaryTree => "binary-tree",
            Algorithm::Sidewinder => "sidewinder",
            Algorithm::Eller => "eller",
            Algorithm::DfsIterative => "dfs-iterative",
            Algorithm::Bfs => "bfs",
            Algorithm::RecursiveBacktrackingBraided => "recursive-backtracking-braided",
            Algorithm::CellularAutomata => "cellular-automata",
            Algorithm::DrunkardsWalk => "drunkards-walk",
            Algorithm::RandomObstacle => "random-obstacle",
            Algorithm::Hamiltonian => "hamiltonian",
            Algorithm::Voronoi => "voronoi",
        }
    }

    /// What the named algorithm promises of its mazes beyond a way from
    /// the entry to the exit.
    pub open spec fn keeps(self, maze: Grid, complexity: Complexity) -> bool {
        match self {
            Algorithm::RecursiveBacktracking => RecursiveBacktracking.keeps(maze, complexity),
            Algorithm::Kruskal => Kruskal.keeps(maze, complexity),
            Algorithm::Prim => Prim.keeps(maze, complexity),
            Algorithm::AldousBroder => AldousBroder.keeps(maze, complexity),
            Algorithm::Wilsons => Wilsons.keeps(maze, complexity),
            Algorithm::RecursiveDivision => RecursiveDivision.keeps(maze, complexity),
            Algorithm::GrowingTree => GrowingTree.keeps(maze, complexity),
            Algorithm::HuntAndKill => HuntAndKill.keeps(maze, complexity),
            Algorithm::BinaryTree => BinaryTree.keeps(maze, complexity),
            Algorithm::Sidewinder => Sidewinder.keeps(maze, complexity),
            Algorithm::Eller => Eller.keeps(maze, complexity),
            Algorithm::DfsIterative => DfsIterative.keeps(maze, complexity),
            Algorithm::Bfs => Bfs.keeps(maze, complexity),
            Algorithm::RecursiveBacktrackingBraided => RecursiveBacktrackingBraided.keeps(
                maze,
                complexity,
            ),
            Algorithm::CellularAutomata => CellularAutomata.keeps(maze, complexity),
            Algorithm::DrunkardsWalk => DrunkardsWalk.keeps(maze, complexity),
            Algorithm::RandomObstacle => RandomObstacle.keeps(maze, complexity),
            Algorithm::Hamiltonian => Hamiltonian.keeps(maze, complexity),
            Algorithm::Voronoi => Voronoi.keeps(maze, complexity),
        }
    }

    /// A maze by the named algorithm.
    pub fn generate(&self, width: u32, height: u32, complexity: Complexity, seed: Option<u64>) -> (maze:
        Maze)
        requires
            valid_size(width, height),
        ensures
            generated(maze@, width, height),
            self.keeps(maze@, complexity),
    {
        match self {
            Algorithm::RecursiveBacktracking => RecursiveBacktracking.generate(
                width,
                height,
                complexity,
                seed,
            ),
            Algorithm::Kruskal => Kruskal.generate(width, height, complexity, seed),
            Algorithm::Prim => Prim.generate(width, height, complexity, seed),
            Algorithm::AldousBroder => AldousBroder.generate(width, height, complexity, seed),
            Algorithm::Wilsons => Wilsons.generate(width, height, complexity, seed),
            Algorithm::RecursiveDivision => RecursiveDivision.generate(
                width,
                height,
                complexity,
                seed,
            ),
            Algorithm::GrowingTree => GrowingTree.generate(width, height, complexity, seed),
            Algorithm::HuntAndKill => HuntAndKill.generate(width, height, complexity, seed),
            Algorithm::BinaryTree => BinaryTree.generate(width, height, complexity, seed),
            Algorithm::Sidewinder => Sidewinder.generate(width, height, complexity, seed),
            Algorithm::Eller => Eller.generate(width, height, complexity, seed),
            Algorithm::DfsIterative => DfsIterative.generate(width, height, complexity, seed),
            Algorithm::Bfs => Bfs.generate(width, height, complexity, seed),
            Algorithm::RecursiveBacktrackingBraided => RecursiveBacktrackingBraided.generate(
                width,
                height,
                complexity,
                seed,
            ),
            Algorithm::CellularAutomata => CellularAutomata.generate(
                width,
                height,
                complexity,
                seed,
            ),
            Algorithm::DrunkardsWalk => DrunkardsWalk.generate(width, height, complexity, seed),
            Algorithm::RandomObstacle => RandomObstacle.generate(width, height, complexity, seed),
            Algorithm::Hamiltonian => Hamiltonian.generate(width, height, complexity, seed),
            Algorithm::Voronoi => Voronoi.generate(width, height, complexity, seed),
        }
    }
}

} // verus!

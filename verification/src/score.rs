//! The result screen's logic: the play modes, the rank a score earns, and numbers written
//! with thousands separators.
use vstd::prelude::*;

use crate::text::string_push;

verus! {

/// The play modes offered on the mode screen.
#[derive(Debug, Clone, Copy, PartialEq, Eq, Structural, Default)]
pub enum PlayMode {
    #[default]
    Normal,
    TimeAttack,
}

impl PlayMode {
    /// The name shown for the mode.
    pub fn label(&self) -> (r: &'static str)
        ensures
            r@ == match self {
                PlayMode::Normal => "ノーマル (10問)"@,
                PlayMode::TimeAttack => "タイムアタック"@,
            },
    {
        match self {
            PlayMode::Normal => "ノーマル (10問)",
            PlayMode::TimeAttack => "タイムアタック",
        }
    }
}

/// The ranks of a result, best first.
#[derive(Debug, Clone, Copy, PartialEq, Eq, Structural)]
pub enum Rank {
    SS,
    S,
    A,
    B,
    C,
    D,
}

/// The rank a score earns: SS from 4000, S from 3200, A from 2400, B from 1600, C from 900, D
/// below.
pub open spec fn rank_of(score: u64) -> Rank {
    if score >= 4000 {
        Rank::SS
    } else if score >= 3200 {
        Rank::S
    } else if score >= 2400 {
        Rank::A
    } else if score >= 1600 {
        Rank::B
    } else if score >= 900 {
        Rank::C
    } else {
        Rank::D
    }
}

/// The rank a score earns (see [`rank_of`]).
pub fn evaluate_rank(score: u64) -> (r: Rank)
    ensures
        r == rank_of(score),
{
    if score >= 4000 {
        Rank::SS
    } else if score >= 3200 {
        Rank::S
    } else if score >= 2400 {
        Rank::A
    } else if score >= 1600 {
        Rank::B
    } else if score >= 900 {
        Rank::C
    } else {
        Rank::D
    }
}

/// The order of ranks: 0 for D up to 5 for SS.
pub open spec fn rank_level(r: Rank) -> int {
    match r {
        Rank::D => 0,
        Rank::C => 1,
        Rank::B => 2,
        Rank::A => 3,
        Rank::S => 4,
        Rank::SS => 5,
    }
}

/// A higher score never earns a lower rank.
pub proof fn lemma_rank_monotone(a: u64, b: u64)
    requires
        a <= b,
    ensures
        rank_level(rank_of(a)) <= rank_level(rank_of(b)),
{
}

impl Rank {
    /// The rank's name.
    pub fn label(&self) -> (r: &'static str)
        ensures
            r@ == match self {
                Rank::SS => "SS"@,
                Rank::S => "S"@,
                Rank::A => "A"@,
                Rank::B => "B"@,
                Rank::C => "C"@,
                Rank::D => "D"@,
            },
    {
        match self {
            Rank::SS => "SS",
            Rank::S => "S",
            Rank::A => "A",
            Rank::B => "B",
            Rank::C => "C",
            Rank::D => "D",
        }
    }

    /// The comment shown with the rank.
    pub fn comment(&self) -> (r: &'static str)
        ensures
            r@ == match self {
                Rank::SS => "神業レベル！驚異的なタイピング速度です！"@,
                Rank::S => "素晴らしい！プロフェッショナル級の腕前！"@,
                Rank::A => "かなり速い！ブラインドタッチも完璧です！"@,
                Rank::B => "実用十分！業務や日常で困らないスピード！"@,
                Rank::C => "順調に上達中！ミスを減らすとさらにスコアUP！"@,
                Rank::D => "まずは正確に打つことを意識してみましょう！"@,
            },
    {
        match self {
            Rank::SS => "神業レベル！驚異的なタイピング速度です！",
            Rank::S => "素晴らしい！プロフェッショナル級の腕前！",
            Rank::A => "かなり速い！ブラインドタッチも完璧です！",
            Rank::B => "実用十分！業務や日常で困らないスピード！",
            Rank::C => "順調に上達中！ミスを減らすとさらにスコアUP！",
            Rank::D => "まずは正確に打つことを意識してみましょう！",
        }
    }
}

/// The decimal digit of `d` (below 10).
pub open spec fn digit_char(d: nat) -> char {
    if d == 0 {
        '0'
    } else if d == 1 {
        '1'
    } else if d == 2 {
        '2'
    } else if d == 3 {
        '3'
    } else if d == 4 {
        '4'
    } else if d == 5 {
        '5'
    } else if d == 6 {
        '6'
    } else if d == 7 {
        '7'
    } else if d == 8 {
        '8'
    } else {
        '9'
    }
}

/// The decimal numeral of `n`, without leading zeros (`0` for zero).
pub open spec fn decimal(n: nat) -> Seq<char>
    decreases n,
{
    if n < 10 {
        seq![digit_char(n)]
    } else {
        decimal(n / 10).push(digit_char(n % 10))
    }
}

/// The characters of `s` up to `i`, with a comma before each position `j > 0` whose distance
/// `s.len() - j` to the end is a multiple of three.
pub open spec fn with_separators_upto(s: Seq<char>, i: int) -> Seq<char>
    decreases i,
{
    if i <= 0 {
        Seq::empty()
    } else {
        let before = with_separators_upto(s, i - 1);
        let j = i - 1;
        if j > 0 && (s.len() - j) % 3 == 0 {
            before.push(',').push(s[j])
        } else {
            before.push(s[j])
        }
    }
}

/// `s` with a comma between each group of three characters counted from the end.
pub open spec fn with_separators(s: Seq<char>) -> Seq<char> {
    with_separators_upto(s, s.len() as int)
}

/// The decimal digit of `d`.
fn digit(d: u64) -> (c: char)
    requires
        d < 10,
    ensures
        c == digit_char(d as nat),
{
    match d {
        0 => '0',
        1 => '1',
        2 => '2',
        3 => '3',
        4 => '4',
        5 => '5',
        6 => '6',
        7 => '7',
        8 => '8',
        _ => '9',
    }
}

/// The decimal numeral of `n`.
fn decimal_digits(n: u64) -> (r: Vec<char>)
    ensures
        r@ == decimal(n as nat),
{
    let mut r: Vec<char> = Vec::new();
    r.push(digit(n % 10));
    let mut m = n / 10;
    while m > 0
        invariant
            m > 0 ==> decimal(n as nat) == decimal(m as nat) + r@,
            m == 0 ==> decimal(n as nat) == r@,
        decreases m,
    {
        let d = digit(m % 10);
        let ghost old_r = r@;
        r.insert(0, d);
        proof {
            if m >= 10 {
                assert(decimal((m / 10) as nat).push(d) + old_r =~= decimal((m / 10) as nat) + r@);
            } else {
                assert(seq![d] + old_r =~= r@);
            }
        }
        m = m / 10;
    }
    r
}

/// `num` in decimal with a comma between each group of three digits from the right, such as
/// `2,450` for 2450.
pub fn format_number(num: u64) -> (r: String)
    ensures
        r@ == with_separators(decimal(num as nat)),
{
    let s = decimal_digits(num);
    let len = s.len();
    let mut result = String::new();
    let mut i: usize = 0;
    while i < len
        invariant
            len == s@.len(),
            0 <= i <= len,
            result@ == with_separators_upto(s@, i as int),
        decreases len - i,
    {
        if i > 0 && (len - i) % 3 == 0 {
            string_push(&mut result, ',');
        }
        string_push(&mut result, s[i]);
        i += 1;
    }
    result
}

/// Not a comma.
pub open spec fn not_comma(c: char) -> bool {
    c != ','
}

/// Leaving out the commas gives back the characters (when they hold no comma).
pub proof fn lemma_separators_keep_digits(s: Seq<char>)
    requires
        forall|j: int| 0 <= j < s.len() ==> s[j] != ',',
    ensures
        with_separators(s).filter(|c: char| not_comma(c)) == s,
{
    lemma_separators_upto(s, s.len() as int);
    assert(s.take(s.len() as int) =~= s);
}

proof fn lemma_separators_upto(s: Seq<char>, i: int)
    requires
        0 <= i <= s.len(),
        forall|j: int| 0 <= j < s.len() ==> s[j] != ',',
    ensures
        with_separators_upto(s, i).filter(|c: char| not_comma(c)) == s.take(i),
    decreases i,
{
    let f = |c: char| not_comma(c);
    if i == 0 {
        assert(s.take(0) =~= Seq::<char>::empty());
    } else {
        lemma_separators_upto(s, i - 1);
        let before = with_separators_upto(s, i - 1);
        let j = i - 1;
        before.lemma_filter_push(',', f);
        if j > 0 && (s.len() - j) % 3 == 0 {
            before.push(',').lemma_filter_push(s[j], f);
        } else {
            before.lemma_filter_push(s[j], f);
        }
        assert(s.take(i - 1).push(s[j]) =~= s.take(i));
    }
}

} // verus!

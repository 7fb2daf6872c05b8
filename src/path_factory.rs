//! Where each step and each phase keeps its files.
//!
//! A step `N` lives in `<root>/NNNN/`, one file `NN.tdl` per dove count;
//! its scratch space is `<root>/NNNN_tmp/<phase>/NN/`, holding shard files
//! `iiii.tdl`. Numbers are written in decimal, padded with zeros on the left
//! to the width shown; components are joined with `/`.

use vstd::prelude::*;
use crate::config::Stage;

verus! {

pub open spec fn digit(d: int) -> char {
    if d == 0 {
        '0'
    } else if d == 1 {
        '1'
    } else if d == 2 {
        '2'
    } else if d == 3 {
        '3'
    } else if d == 4 {
        '4'
    } else if d == 5 {
        '5'
    } else if d == 6 {
        '6'
    } else if d == 7 {
        '7'
    } else if d == 8 {
        '8'
    } else {
        '9'
    }
}

/// Decimal digits of `n`, most significant first.
pub open spec fn decimal(n: nat) -> Seq<char>
    decreases n,
{
    if n < 10 {
        seq![digit(n as int)]
    } else {
        decimal(n / 10).push(digit((n % 10) as int))
    }
}

/// `n` in decimal, with zeros on the left up to `width` characters.
pub open spec fn zero_padded(n: nat, width: nat) -> Seq<char> {
    let len = decimal(n).len();
    let pad: nat = if width > len {
        (width - len) as nat
    } else {
        0
    };
    Seq::new(pad, |_i: int| '0') + decimal(n)
}

/// `parent/child`.
pub open spec fn join(parent: Seq<char>, child: Seq<char>) -> Seq<char> {
    parent + seq!['/'] + child
}

/// Directory of the bucket of `num_doves` doves under `parent`.
pub open spec fn spec_dove_dir(parent: Seq<char>, num_doves: nat) -> Seq<char> {
    join(parent, zero_padded(num_doves, 2))
}

/// Shard file `file_idx` under `parent`.
pub open spec fn spec_distributed_path(parent: Seq<char>, file_idx: nat) -> Seq<char> {
    join(parent, zero_padded(file_idx, 4) + ".tdl"@)
}

fn digit_str(d: usize) -> (r: &'static str)
    requires
        d < 10,
    ensures
        r@ == seq![digit(d as int)],
{
    proof {
        reveal_strlit("0");
        reveal_strlit("1");
        reveal_strlit("2");
        reveal_strlit("3");
        reveal_strlit("4");
        reveal_strlit("5");
        reveal_strlit("6");
        reveal_strlit("7");
        reveal_strlit("8");
        reveal_strlit("9");
    }
    let r = match d {
        0 => "0",
        1 => "1",
        2 => "2",
        3 => "3",
        4 => "4",
        5 => "5",
        6 => "6",
        7 => "7",
        8 => "8",
        _ => "9",
    };
    assert(r@ =~= seq![digit(d as int)]);
    r
}

fn push_decimal(s: &mut String, n: usize)
    ensures
        final(s)@ == old(s)@ + decimal(n as nat),
    decreases n,
{
    if n >= 10 {
        push_decimal(s, n / 10);
    }
    s.append(digit_str(n % 10));
    assert(final(s)@ =~= old(s)@ + decimal(n as nat));
}

/// `n` in decimal, padded with zeros on the left to `width` characters.
fn zero_padded_string(n: usize, width: usize) -> (r: String)
    ensures
        r@ == zero_padded(n as nat, width as nat),
{
    let mut digits = String::new();
    push_decimal(&mut digits, n);
    assert(digits@ =~= decimal(n as nat));
    let len = digits.as_str().unicode_len();
    let mut s = String::new();
    let mut i: usize = len;
    while i < width
        invariant
            len <= i,
            i <= width || i == len,
            s@ =~= Seq::new((i - len) as nat, |_i: int| '0'),
        decreases width - i,
    {
        proof {
            reveal_strlit("0");
        }
        s.append("0");
        i = i + 1;
    }
    s.append(digits.as_str());
    assert(s@ =~= zero_padded(n as nat, width as nat));
    s
}

fn join_string(parent: &str, child: &str) -> (r: String)
    ensures
        r@ == join(parent@, child@),
{
    let mut s = String::from_str(parent);
    proof {
        reveal_strlit("/");
    }
    s.append("/");
    s.append(child);
    assert(s@ =~= join(parent@, child@));
    s
}

/// The directory layout below one root directory.
#[derive(Debug, Clone)]
pub struct PathFactory {
    root: String,
}

impl View for PathFactory {
    type V = Seq<char>;

    closed spec fn view(&self) -> Seq<char> {
        self.root@
    }
}

impl PathFactory {
    pub open spec fn spec_num_dir(&self, num_step: nat) -> Seq<char> {
        join(self@, zero_padded(num_step, 4))
    }

    pub open spec fn spec_num_tmp_dir(&self, num_step: nat) -> Seq<char> {
        join(self@, zero_padded(num_step, 4) + "_tmp"@)
    }

    /// The file of `num_doves` doves in step `num_step`.
    pub open spec fn spec_step_file(&self, num_step: nat, num_doves: nat) -> Seq<char> {
        join(self.spec_num_dir(num_step), zero_padded(num_doves, 2) + ".tdl"@)
    }

    pub fn new(root: String) -> (r: Self)
        ensures
            r@ == root@,
    {
        PathFactory { root }
    }

    /// `<root>/NNNN`
    pub fn num_dir(&self, num_step: usize) -> (r: String)
        ensures
            r@ == self.spec_num_dir(num_step as nat),
    {
        let n = zero_padded_string(num_step, 4);
        join_string(self.root.as_str(), n.as_str())
    }

    /// `<root>/NNNN_tmp`
    pub fn num_tmp_dir(&self, num_step: usize) -> (r: String)
        ensures
            r@ == self.spec_num_tmp_dir(num_step as nat),
    {
        let mut n = zero_padded_string(num_step, 4);
        n.append("_tmp");
        join_string(self.root.as_str(), n.as_str())
    }

    /// `<root>/NNNN_tmp/backstepped`
    pub fn backstepped(&self, num_step: usize) -> (r: String)
        ensures
            r@ == join(self.spec_num_tmp_dir(num_step as nat), "backstepped"@),
    {
        join_string(self.num_tmp_dir(num_step).as_str(), "backstepped")
    }

    /// `<root>/NNNN_tmp/redistributed`
    pub fn redistributed(&self, num_step: usize) -> (r: String)
        ensures
            r@ == join(self.spec_num_tmp_dir(num_step as nat), "redistributed"@),
    {
        join_string(self.num_tmp_dir(num_step).as_str(), "redistributed")
    }

    /// `<root>/NNNN_tmp/trimmed_simply`
    pub fn trimmed_simply(&self, num_step: usize) -> (r: String)
        ensures
            r@ == join(self.spec_num_tmp_dir(num_step as nat), "trimmed_simply"@),
    {
        join_string(self.num_tmp_dir(num_step).as_str(), "trimmed_simply")
    }

    /// `<root>/NNNN_tmp/trimmed_move`
    pub fn trimmed_move(&self, num_step: usize) -> (r: String)
        ensures
            r@ == join(self.spec_num_tmp_dir(num_step as nat), "trimmed_move"@),
    {
        join_string(self.num_tmp_dir(num_step).as_str(), "trimmed_move")
    }

    /// `<root>/NNNN_tmp/trimmed_put`
    pub fn trimmed_put(&self, num_step: usize) -> (r: String)
        ensures
            r@ == join(self.spec_num_tmp_dir(num_step as nat), "trimmed_put"@),
    {
        join_string(self.num_tmp_dir(num_step).as_str(), "trimmed_put")
    }

    /// `<root>/NNNN_tmp/trimmed_remove`
    pub fn trimmed_remove(&self, num_step: usize) -> (r: String)
        ensures
            r@ == join(self.spec_num_tmp_dir(num_step as nat), "trimmed_remove"@),
    {
        join_string(self.num_tmp_dir(num_step).as_str(), "trimmed_remove")
    }

    /// `<root>/NNNN/NN.tdl`: the positions of `num_doves` doves found in
    /// step `num_step`.
    pub fn step_file(&self, num_step: usize, num_doves: usize) -> (r: String)
        ensures
            r@ == self.spec_step_file(num_step as nat, num_doves as nat),
    {
        let mut name = zero_padded_string(num_doves, 2);
        name.append(".tdl");
        join_string(self.num_dir(num_step).as_str(), name.as_str())
    }

    /// The scratch directory of `stage` in step `num_step`.
    pub fn stage_dir(&self, stage: Stage, num_step: usize) -> (r: String)
        ensures
            r@ == join(
                self.spec_num_tmp_dir(num_step as nat),
                match stage {
                    Stage::Simply => "trimmed_simply"@,
                    Stage::Remove => "trimmed_remove"@,
                    Stage::Move => "trimmed_move"@,
                    Stage::Put => "trimmed_put"@,
                },
            ),
    {
        match stage {
            Stage::Simply => self.trimmed_simply(num_step),
            Stage::Remove => self.trimmed_remove(num_step),
            Stage::Move => self.trimmed_move(num_step),
            Stage::Put => self.trimmed_put(num_step),
        }
    }

    /// The files of `num_doves` doves of every win step up to
    /// `num_step_ceil`: steps 3, 5, 7, ...
    pub fn win_paths(&self, num_step_ceil: usize, num_doves: usize) -> (r: Vec<String>)
        ensures
            r@.len() == (if num_step_ceil < 3 {
                0
            } else {
                (num_step_ceil - 3) / 2 + 1
            }),
            forall|i: int|
                0 <= i < r@.len() ==> #[trigger] r@[i]@ == self.spec_step_file(
                    (3 + 2 * i) as nat,
                    num_doves as nat,
                ),
    {
        let count: usize = if num_step_ceil < 3 {
            0
        } else {
            (num_step_ceil - 3) / 2 + 1
        };
        let mut paths: Vec<String> = Vec::new();
        let mut k: usize = 0;
        while k < count
            invariant
                k <= count,
                count == (if num_step_ceil < 3 {
                    0
                } else {
                    (num_step_ceil - 3) / 2 + 1
                }),
                paths@.len() == k,
                forall|i: int|
                    0 <= i < k ==> #[trigger] paths@[i]@ == self.spec_step_file(
                        (3 + 2 * i) as nat,
                        num_doves as nat,
                    ),
            decreases count - k,
        {
            let n: usize = 3 + 2 * k;
            paths.push(self.step_file(n, num_doves));
            k = k + 1;
        }
        paths
    }
}

/// `<parent>/NN`: the bucket of `num_doves` doves.
pub fn dove_dir(parent: &str, num_doves: usize) -> (r: String)
    ensures
        r@ == spec_dove_dir(parent@, num_doves as nat),
{
    let n = zero_padded_string(num_doves, 2);
    join_string(parent, n.as_str())
}

/// `<parent>/iiii.tdl`: shard file `file_idx`.
pub fn distributed_path(parent: &str, file_idx: usize) -> (r: String)
    ensures
        r@ == spec_distributed_path(parent@, file_idx as nat),
{
    let mut n = zero_padded_string(file_idx, 4);
    n.append(".tdl");
    join_string(parent, n.as_str())
}

/// `<parent>/from_NN_iiii.tdl`: what chunk `idx_chunk` of the positions
/// of `num_doves_from` doves backsteps into.
pub fn backstep_path(parent: &str, num_doves_from: usize, idx_chunk: usize) -> (r: String)
    ensures
        r@ == join(
            parent@,
            "from_"@ + zero_padded(num_doves_from as nat, 2) + "_"@ + zero_padded(
                idx_chunk as nat,
                4,
            ) + ".tdl"@,
        ),
{
    let mut name = String::from_str("from_");
    let from = zero_padded_string(num_doves_from, 2);
    let idx = zero_padded_string(idx_chunk, 4);
    name.append(from.as_str());
    name.append("_");
    name.append(idx.as_str());
    name.append(".tdl");
    join_string(parent, name.as_str())
}

} // verus!

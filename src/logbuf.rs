use std::collections::VecDeque;
use vstd::prelude::*;
use vstd::string::StringExecFns;

verus! {

/// Most lines a [`LogBuffer`] keeps.
pub const LOG_CAPACITY: usize = 100;

/// `lines` with `line` appended, the oldest line evicted when the buffer is full.
pub open spec fn pushed(lines: Seq<Seq<char>>, line: Seq<char>) -> Seq<Seq<char>> {
    if lines.len() >= LOG_CAPACITY {
        lines.drop_first().push(line)
    } else {
        lines.push(line)
    }
}

/// The buffer reached from `lines` by pushing each of `xs` in order.
pub open spec fn pushed_all(lines: Seq<Seq<char>>, xs: Seq<Seq<char>>) -> Seq<Seq<char>>
    decreases xs.len(),
{
    if xs.len() == 0 {
        lines
    } else {
        pushed_all(pushed(lines, xs[0]), xs.drop_first())
    }
}

/// The last (at most) `LOG_CAPACITY` items of `xs`.
pub open spec fn last_capacity(xs: Seq<Seq<char>>) -> Seq<Seq<char>> {
    if xs.len() > LOG_CAPACITY {
        xs.subrange(xs.len() - LOG_CAPACITY, xs.len() as int)
    } else {
        xs
    }
}

/// `lines` joined by `sep`: `sep` stands between each two neighbours.
pub open spec fn joined(lines: Seq<Seq<char>>, sep: Seq<char>) -> Seq<char>
    decreases lines.len(),
{
    if lines.len() == 0 {
        Seq::empty()
    } else if lines.len() == 1 {
        lines[0]
    } else {
        joined(lines.drop_last(), sep) + sep + lines.last()
    }
}

/// A bounded FIFO of text lines: at capacity, a new line evicts the oldest.
pub struct LogBuffer {
    lines: VecDeque<String>,
}

impl View for LogBuffer {
    type V = Seq<Seq<char>>;

    closed spec fn view(&self) -> Seq<Seq<char>> {
        self.lines@.map_values(|s: String| s@)
    }
}

impl LogBuffer {
    /// The buffer holds at most `LOG_CAPACITY` lines.
    pub open spec fn wf(&self) -> bool {
        self@.len() <= LOG_CAPACITY
    }

    pub fn new() -> (r: LogBuffer)
        ensures
            r.wf(),
            r@ == Seq::<Seq<char>>::empty(),
    {
        let r = LogBuffer { lines: VecDeque::with_capacity(LOG_CAPACITY) };
        assert(r@ =~= Seq::<Seq<char>>::empty());
        r
    }

    /// Number of lines held.
    pub fn len(&self) -> (n: usize)
        ensures
            n == self@.len(),
    {
        self.lines.len()
    }

    /// Appends `line`, evicting the oldest line first when the buffer is full.
    pub fn push_line(&mut self, line: String)
        requires
            old(self).wf(),
        ensures
            final(self).wf(),
            final(self)@ == pushed(old(self)@, line@),
    {
        let ghost before = self@;
        if self.lines.len() >= LOG_CAPACITY {
            let _ = self.lines.pop_front();
        }
        let ghost mid = self.lines@;
        self.lines.push_back(line);
        assert(self@ =~= pushed(before, line@));
    }

    /// The lines, oldest first.
    pub fn lines(&self) -> (r: Vec<String>)
        ensures
            r@.map_values(|s: String| s@) == self@,
    {
        let mut r: Vec<String> = Vec::new();
        let n = self.lines.len();
        let mut i: usize = 0;
        while i < n
            invariant
                n == self.lines@.len(),
                i <= n,
                r@.len() == i,
                forall|k: int| 0 <= k < i ==> #[trigger] r@[k]@ == self.lines@[k]@,
            decreases n - i,
        {
            let s = self.lines[i].clone();
            r.push(s);
            i = i + 1;
        }
        assert(r@.map_values(|s: String| s@) =~= self@);
        r
    }

    /// The lines joined by newlines, oldest first.
    pub fn joined(&self) -> (r: String)
        ensures
            r@ == joined(self@, seq!['\n']),
    {
        let mut r = String::new();
        let n = self.lines.len();
        let mut i: usize = 0;
        while i < n
            invariant
                n == self.lines@.len(),
                i <= n,
                r@ == joined(self@.subrange(0, i as int), seq!['\n']),
            decreases n - i,
        {
            proof {
                let sub = self@.subrange(0, i as int + 1);
                assert(sub.drop_last() =~= self@.subrange(0, i as int));
            }
            if i > 0 {
                r.append("\n");
                proof {
                    reveal_strlit("\n");
                }
            }
            r.append(self.lines[i].as_str());
            proof {
                let sub = self@.subrange(0, i as int + 1);
                if i == 0 {
                    assert(joined(sub, seq!['\n']) == sub[0]);
                }
            }
            i = i + 1;
        }
        assert(self@.subrange(0, n as int) =~= self@);
        r
    }
}

/// Pushing lines one by one onto a buffer that starts empty keeps exactly the
/// last `LOG_CAPACITY` of them, in order: older lines are evicted first.
pub proof fn lemma_keeps_last_lines(xs: Seq<Seq<char>>)
    ensures
        pushed_all(Seq::empty(), xs) == last_capacity(xs),
{
    lemma_pushed_all_suffix(Seq::empty(), xs);
    assert(Seq::<Seq<char>>::empty() + xs =~= xs);
}

proof fn lemma_pushed_all_suffix(lines: Seq<Seq<char>>, xs: Seq<Seq<char>>)
    requires
        lines.len() <= LOG_CAPACITY,
    ensures
        pushed_all(lines, xs) == last_capacity(lines + xs),
    decreases xs.len(),
{
    if xs.len() == 0 {
        assert(lines + xs =~= lines);
    } else {
        let next = pushed(lines, xs[0]);
        lemma_pushed_all_suffix(next, xs.drop_first());
        let all = lines + xs;
        if lines.len() >= LOG_CAPACITY {
            assert(next =~= all.subrange(1, lines.len() as int + 1));
            assert(next + xs.drop_first() =~= all.subrange(1, all.len() as int));
        } else {
            assert(next + xs.drop_first() =~= all);
        }
    }
}

/// Records `message` as one line (with its newline) in `buffer`.
pub fn log_message(buffer: &mut LogBuffer, message: String)
    requires
        old(buffer).wf(),
    ensures
        final(buffer).wf(),
        final(buffer)@ == pushed(old(buffer)@, message@ + seq!['\n']),
{
    let mut line = message;
    line.append("\n");
    proof {
        reveal_strlit("\n");
        assert("\n"@ =~= seq!['\n']);
    }
    buffer.push_line(line);
}

} // verus!

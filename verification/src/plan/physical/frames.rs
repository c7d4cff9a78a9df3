//! Stacks of activation frames: the open matches of each scope along a move.

use vstd::prelude::*;
use crate::engine::engine::InstanceId;

verus! {

/// One open match on a stack.
#[derive(Debug, Clone, Copy, PartialEq, Eq, Structural)]
pub struct Frame {
    pub instance: InstanceId,
    pub depth: u32,
    /// False when the match is outside an open parent along this scope's move.
    pub active: bool,
}

impl Frame {
    pub fn new(instance: InstanceId, depth: u32, active: bool) -> (r: Frame)
        ensures
            r == (Frame { instance, depth, active }),
    {
        Frame { instance, depth, active }
    }
}

/// Index of the topmost frame of `stack` for `instance`, or -1 when there is none.
pub open spec fn topmost_for(stack: Seq<Frame>, instance: InstanceId) -> int
    decreases stack.len(),
{
    if stack.len() == 0 {
        -1
    } else if stack.last().instance == instance {
        stack.len() - 1
    } else {
        topmost_for(stack.drop_last(), instance)
    }
}

pub proof fn lemma_topmost_for(stack: Seq<Frame>, instance: InstanceId)
    ensures
        -1 <= topmost_for(stack, instance) < stack.len(),
        topmost_for(stack, instance) >= 0 ==> stack[topmost_for(stack, instance)].instance == instance,
        forall|j: int| topmost_for(stack, instance) < j < stack.len() ==> stack[j].instance != instance,
        topmost_for(stack, instance) == -1 <==> forall|j: int| 0 <= j < stack.len() ==> stack[j].instance != instance,
    decreases stack.len(),
{
    if stack.len() > 0 {
        lemma_topmost_for(stack.drop_last(), instance);
        if stack.last().instance != instance {
            assert forall|j: int| 0 <= j < stack.len() - 1 implies stack[j] == stack.drop_last()[j] by {}
        }
    }
}

/// Mutable stacks of activation frames (axis runtime state).
#[derive(Debug)]
pub struct Frames {
    open: Vec<Vec<Frame>>,
}

impl View for Frames {
    type V = Seq<Seq<Frame>>;

    closed spec fn view(&self) -> Seq<Seq<Frame>> {
        Seq::new(self.open@.len(), |i: int| self.open@[i]@)
    }
}

impl Frames {
    /// `stack_count` empty stacks.
    pub fn new(stack_count: usize) -> (r: Frames)
        ensures
            r@.len() == stack_count,
            forall|i: int| 0 <= i < stack_count ==> (#[trigger] r@[i]).len() == 0,
    {
        let mut open: Vec<Vec<Frame>> = Vec::new();
        let mut k: usize = 0;
        while k < stack_count
            invariant
                k <= stack_count,
                open@.len() == k,
                forall|i: int| 0 <= i < k ==> (#[trigger] open@[i])@.len() == 0,
            decreases stack_count - k,
        {
            open.push(Vec::new());
            k = k + 1;
        }
        Frames { open }
    }

    /// Pushes `frame` on top of `stack`.
    pub fn push(&mut self, stack: usize, frame: Frame)
        requires
            stack < old(self)@.len(),
        ensures
            final(self)@ == old(self)@.update(stack as int, old(self)@[stack as int].push(frame)),
    {
        let mut inner: Vec<Frame> = Vec::new();
        std::mem::swap(&mut inner, &mut self.open[stack]);
        inner.push(frame);
        std::mem::swap(&mut inner, &mut self.open[stack]);
        assert(self@ =~= old(self)@.update(stack as int, old(self)@[stack as int].push(frame)));
    }

    /// Pops the top of `stack`, if any.
    pub fn pop(&mut self, stack: usize) -> (r: Option<Frame>)
        requires
            stack < old(self)@.len(),
        ensures
            old(self)@[stack as int].len() == 0 ==> r is None && final(self)@ == old(self)@,
            old(self)@[stack as int].len() > 0 ==> {
                &&& r == Some(old(self)@[stack as int].last())
                &&& final(self)@ == old(self)@.update(stack as int, old(self)@[stack as int].drop_last())
            },
    {
        let mut inner: Vec<Frame> = Vec::new();
        std::mem::swap(&mut inner, &mut self.open[stack]);
        let r = inner.pop();
        std::mem::swap(&mut inner, &mut self.open[stack]);
        proof {
            if old(self)@[stack as int].len() == 0 {
                assert(self@ =~= old(self)@);
            } else {
                assert(self@ =~= old(self)@.update(stack as int, old(self)@[stack as int].drop_last()));
            }
        }
        r
    }

    /// The top of `stack`, if any.
    pub fn peek(&self, stack: usize) -> (r: Option<&Frame>)
        requires
            stack < self@.len(),
        ensures
            self@[stack as int].len() == 0 ==> r is None,
            self@[stack as int].len() > 0 ==> r == Some(&self@[stack as int].last()),
    {
        let inner = &self.open[stack];
        if inner.len() == 0 {
            None
        } else {
            Some(&inner[inner.len() - 1])
        }
    }

    /// The topmost frame of `stack` for `instance`, to be updated in place.
    pub fn frame_mut(&mut self, stack: usize, instance: InstanceId) -> (r: &mut Frame)
        requires
            stack < old(self)@.len(),
            exists|j: int| 0 <= j < old(self)@[stack as int].len() && (#[trigger] old(self)@[stack as int][j]).instance == instance,
        ensures
            ({
                let at = topmost_for(old(self)@[stack as int], instance);
                &&& 0 <= at < old(self)@[stack as int].len()
                &&& *r == old(self)@[stack as int][at]
                &&& final(self)@ == old(self)@.update(stack as int, old(self)@[stack as int].update(at, *final(r)))
            }),
    {
        proof {
            lemma_topmost_for(old(self)@[stack as int], instance);
        }
        let ghost frames = old(self)@[stack as int];
        let mut j: usize = self.open[stack].len();
        while j > 0 && self.open[stack][j - 1].instance != instance
            invariant
                stack < self.open@.len(),
                self@ == old(self)@,
                frames == self@[stack as int],
                j <= frames.len(),
                topmost_for(frames, instance) < j,
            decreases j,
        {
            proof {
                lemma_topmost_for(frames, instance);
                assert(self.open@[stack as int]@[j - 1] == frames[j - 1]);
            }
            j = j - 1;
        }
        let at = j - 1;
        assert(at as int == topmost_for(frames, instance));
        &mut self.open[stack][at]
    }
}

/// Frames are stacks: popping right after pushing `frame` on `stack` (as `push` and `pop`
/// state them) gives `frame` back and leaves every stack as it was.
pub proof fn law_pop_undoes_push(stacks: Seq<Seq<Frame>>, stack: int, frame: Frame)
    requires
        0 <= stack < stacks.len(),
    ensures
        ({
            let pushed = stacks.update(stack, stacks[stack].push(frame));
            &&& pushed[stack].len() > 0
            &&& pushed[stack].last() == frame
            &&& pushed.update(stack, pushed[stack].drop_last()) == stacks
        }),
{
    let pushed = stacks.update(stack, stacks[stack].push(frame));
    assert(pushed[stack].drop_last() =~= stacks[stack]);
    assert(pushed.update(stack, pushed[stack].drop_last()) =~= stacks);
}

} // verus!

//! A bounded stack over a growable array, a two-stack browser-history
//! model, bracket matching, and a small infix-expression calculator.

use vstd::prelude::*;

verus! {

/// Last-in first-out store with a fixed capacity.
///
/// `len` is the capacity chosen at construction and never changes;
/// `count` is the number of elements currently held.
pub struct Stack<T> {
    pub len: usize,
    pub count: usize,
    inner: Vec<T>,
}

impl<T> Stack<T> {
    /// The stored elements, bottom of the stack first.
    pub closed spec fn contents(&self) -> Seq<T> {
        self.inner@
    }

    /// The capacity fixed at construction (the `len` field).
    pub closed spec fn capacity(&self) -> usize {
        self.len
    }

    /// The number of elements held (the `count` field).
    pub closed spec fn size(&self) -> usize {
        self.count
    }

    /// `count` tracks the store and never passes the capacity.
    pub open spec fn wf(&self) -> bool {
        &&& self.contents().len() == self.size()
        &&& self.size() <= self.capacity()
    }

    /// An empty stack with capacity `n`.
    pub fn new(n: usize) -> (r: Self)
        ensures
            r.wf(),
            r.capacity() == n,
            r.size() == 0,
            r.contents() == Seq::<T>::empty(),
    {
        Stack { len: n, count: 0, inner: Vec::new() }
    }

    /// Pushes on top of the stack; fails (and changes nothing) when the
    /// stack already holds `len` elements.
    pub fn push(&mut self, n: T) -> (r: Option<()>)
        requires
            old(self).wf(),
        ensures
            final(self).wf(),
            final(self).capacity() == old(self).capacity(),
            old(self).size() < old(self).capacity() ==> {
                &&& r == Some(())
                &&& final(self).contents() == old(self).contents().push(n)
                &&& final(self).size() == old(self).size() + 1
            },
            old(self).size() >= old(self).capacity() ==> r == None::<()> && *final(self) == *old(
                self,
            ),
    {
        if self.count < self.len {
            self.inner.push(n);
            self.count = self.count + 1;
            return Some(());
        }
        None
    }

    /// Removes and returns the top element; fails on an empty stack.
    pub fn pop(&mut self) -> (r: Option<T>)
        requires
            old(self).wf(),
        ensures
            final(self).wf(),
            final(self).capacity() == old(self).capacity(),
            old(self).size() >= 1 ==> {
                &&& r == Some(old(self).contents().last())
                &&& final(self).contents() == old(self).contents().drop_last()
                &&& final(self).size() == old(self).size() - 1
            },
            old(self).size() == 0 ==> r == None::<T> && *final(self) == *old(self),
    {
        if self.count >= 1 {
            self.count = self.count - 1;
            return self.inner.pop();
        }
        None
    }
}

/// A browser-history model: visited pages sit on the `forward` stack,
/// pages left by going back sit on the `backward` stack; both stacks
/// hold at most ten pages.
pub struct Browser<T> {
    forward: Stack<T>,
    backward: Stack<T>,
}

impl<T: Copy> Browser<T> {
    /// The visit stack, oldest page first; its top is the current page.
    pub closed spec fn pages(&self) -> Seq<T> {
        self.forward.contents()
    }

    /// The pages left behind by going backward, in the order they were
    /// set aside.
    pub closed spec fn trail(&self) -> Seq<T> {
        self.backward.contents()
    }

    /// The two stacks as values, for the well-formedness condition.
    pub closed spec fn stacks(&self) -> (Stack<T>, Stack<T>) {
        (self.forward, self.backward)
    }

    /// Both stacks are well formed with capacity ten.
    pub open spec fn wf(&self) -> bool {
        &&& self.stacks().0.wf()
        &&& self.stacks().1.wf()
        &&& self.stacks().0.capacity() == 10
        &&& self.stacks().1.capacity() == 10
        &&& self.pages() == self.stacks().0.contents()
        &&& self.trail() == self.stacks().1.contents()
    }

    /// A browser with no history.
    pub fn new() -> (r: Self)
        ensures
            r.wf(),
            r.pages() == Seq::<T>::empty(),
            r.trail() == Seq::<T>::empty(),
    {
        Browser { forward: Stack::new(10), backward: Stack::new(10) }
    }

    /// Visits page `n`: pushes it on the visit stack; fails when ten
    /// pages are already held.
    pub fn browse(&mut self, n: T) -> (r: Option<()>)
        requires
            old(self).wf(),
        ensures
            final(self).wf(),
            final(self).trail() == old(self).trail(),
            old(self).pages().len() < 10 ==> r == Some(()) && final(self).pages() == old(
                self,
            ).pages().push(n),
            old(self).pages().len() >= 10 ==> r == None::<()> && final(self).pages() == old(
                self,
            ).pages(),
    {
        self.forward.push(n)
    }

    /// Goes forward: moves the most recently set-aside page back onto
    /// the visit stack and returns the current page. Fails when there
    /// is nothing to go forward to; the moved page is dropped when the
    /// visit stack is full.
    pub fn forward(&mut self) -> (r: Option<T>)
        requires
            old(self).wf(),
        ensures
            final(self).wf(),
            old(self).trail().len() == 0 ==> r == None::<T> && final(self).pages() == old(
                self,
            ).pages() && final(self).trail() == old(self).trail(),
            old(self).trail().len() > 0 ==> {
                &&& final(self).trail() == old(self).trail().drop_last()
                &&& final(self).pages() == (if old(self).pages().len() < 10 {
                    old(self).pages().push(old(self).trail().last())
                } else {
                    old(self).pages()
                })
                &&& r == Some(final(self).pages().last())
            },
    {
        if let Some(page) = self.backward.pop() {
            self.forward.push(page);
            return self.current();
        }
        None
    }

    /// Goes backward: sets the current page aside and returns the page
    /// beneath it. Fails when no page is held; the set-aside page is
    /// dropped when the backward stack is full.
    pub fn backward(&mut self) -> (r: Option<T>)
        requires
            old(self).wf(),
        ensures
            final(self).wf(),
            old(self).pages().len() == 0 ==> r == None::<T> && final(self).pages() == old(
                self,
            ).pages() && final(self).trail() == old(self).trail(),
            old(self).pages().len() > 0 ==> {
                &&& final(self).pages() == old(self).pages().drop_last()
                &&& final(self).trail() == (if old(self).trail().len() < 10 {
                    old(self).trail().push(old(self).pages().last())
                } else {
                    old(self).trail()
                })
                &&& r == (if final(self).pages().len() > 0 {
                    Some(final(self).pages().last())
                } else {
                    None::<T>
                })
            },
    {
        if let Some(page) = self.forward.pop() {
            self.backward.push(page);
            return self.current();
        }
        None
    }

    /// The page on top of the visit stack, if any.
    fn current(&mut self) -> (r: Option<T>)
        requires
            old(self).wf(),
        ensures
            *final(self) == *old(self),
            old(self).pages().len() > 0 ==> r == Some(old(self).pages().last()),
            old(self).pages().len() == 0 ==> r == None::<T>,
    {
        if self.forward.count != 0 {
            return Some(self.forward.inner[self.forward.count - 1]);
        }
        None
    }
}

/// Pushing on a stack that drops its input when fifty elements are
/// already held.
pub open spec fn push50(st: Seq<char>, c: char) -> Seq<char> {
    if st.len() < 50 {
        st.push(c)
    } else {
        st
    }
}

/// What `brackets_match` computes from position `i` on, carrying the
/// stack of open brackets: an opening bracket is pushed (dropped when
/// fifty are already held), a closing bracket must match the top of a
/// non-empty stack (closing against an empty stack is ignored), and at
/// the end the stack must be empty.
pub open spec fn brackets_from(s: Seq<char>, i: int, st: Seq<char>) -> bool
    decreases s.len() - i,
{
    if i < 0 || i >= s.len() {
        st.len() == 0
    } else {
        let c = s[i];
        if c == '(' || c == '[' || c == '{' {
            brackets_from(s, i + 1, push50(st, c))
        } else if c == ')' {
            if st.len() > 0 {
                if st.last() != '(' {
                    false
                } else {
                    brackets_from(s, i + 1, st.drop_last())
                }
            } else {
                brackets_from(s, i + 1, st)
            }
        } else if c == ']' {
            if st.len() > 0 {
                if st.last() != '[' {
                    false
                } else {
                    brackets_from(s, i + 1, st.drop_last())
                }
            } else {
                brackets_from(s, i + 1, st)
            }
        } else if c == '}' {
            if st.len() > 0 {
                if st.last() != '{' {
                    false
                } else {
                    brackets_from(s, i + 1, st.drop_last())
                }
            } else {
                brackets_from(s, i + 1, st)
            }
        } else {
            brackets_from(s, i + 1, st)
        }
    }
}

/// Whether the round, square and curly brackets in `s` are properly
/// nested, checked with a bounded stack of open brackets (see
/// `brackets_from` for the exact discipline).
pub fn brackets_match(s: &str) -> (r: bool)
    ensures
        r == brackets_from(s@, 0, Seq::<char>::empty()),
{
    let mut v: Stack<char> = Stack::new(50);
    let len = s.unicode_len();
    let mut i: usize = 0;
    while i < len
        invariant
            v.wf(),
            v.capacity() == 50,
            i <= len,
            len == s@.len(),
            brackets_from(s@, 0, Seq::<char>::empty()) == brackets_from(s@, i as int, v.contents()),
        decreases len - i,
    {
        let c = s.get_char(i);
        match c {
            '(' | '[' | '{' => {
                v.push(c);
            },
            ')' => {
                if let Some(x) = v.pop() {
                    if x != '(' {
                        return false;
                    }
                }
            },
            ']' => {
                if let Some(x) = v.pop() {
                    if x != '[' {
                        return false;
                    }
                }
            },
            '}' => {
                if let Some(x) = v.pop() {
                    if x != '{' {
                        return false;
                    }
                }
            },
            _ => {},
        }
        i = i + 1;
    }
    v.count == 0
}

/// Pushing on a stack that drops its input when twenty elements are
/// already held.
pub open spec fn push20<A>(st: Seq<A>, x: A) -> Seq<A> {
    if st.len() < 20 {
        st.push(x)
    } else {
        st
    }
}

/// Whether `x` has lower or equal precedence than `y`, so that `y`
/// must be applied before `x` is stacked.
pub open spec fn precedes(x: char, y: char) -> bool {
    ||| (x == '+' && (y == '-' || y == '*' || y == '/'))
    ||| (x == '-' && (y == '+' || y == '*' || y == '/'))
    ||| (x == '*' && y == '/')
    ||| (x == '/' && y == '*')
}

/// Truncating division as the machine computes it, failing on a zero
/// divisor or an out-of-range quotient.
pub open spec fn div_trunc(x: int, d: int) -> Option<i32> {
    if d == 0 {
        None
    } else {
        let q = if x == 0 {
            0
        } else if x > 0 && d > 0 {
            x / d
        } else if x < 0 && d < 0 {
            ((x * -1) / (d * -1))
        } else if x < 0 {
            ((x * -1) / d) * -1
        } else {
            (x / (d * -1)) * -1
        };
        if q < i32::MIN || q > i32::MAX {
            None
        } else {
            Some(q as i32)
        }
    }
}

/// Applying operator `z` to `x` and `y`: the exact arithmetic result
/// when it fits in an `i32`, and nothing on overflow, division by zero
/// or an unknown operator.
pub open spec fn cal_spec(x: i32, y: i32, z: char) -> Option<i32> {
    if z == '+' {
        if i32::MIN <= x + y <= i32::MAX {
            Some((x + y) as i32)
        } else {
            None
        }
    } else if z == '-' {
        if i32::MIN <= x - y <= i32::MAX {
            Some((x - y) as i32)
        } else {
            None
        }
    } else if z == '*' {
        if i32::MIN <= x * y <= i32::MAX {
            Some((x * y) as i32)
        } else {
            None
        }
    } else if z == '/' {
        div_trunc(x as int, y as int)
    } else {
        None
    }
}

/// What one scanned character does to the two stacks (`nums` holds
/// operands, `ops` pending operators): a digit is pushed as its value;
/// an operator of lower or equal precedence than the stacked top first
/// applies that top to the two topmost operands (losing what it popped
/// when operands are missing or the application fails); anything else
/// is ignored. Pushes drop their input when a stack is full.
pub open spec fn scan_step(nums: Seq<i32>, ops: Seq<char>, c: char) -> (Seq<i32>, Seq<char>) {
    if c == '+' || c == '-' || c == '*' || c == '/' {
        if ops.len() == 0 {
            (nums, push20(ops, c))
        } else {
            let y = ops.last();
            if precedes(c, y) {
                let ops1 = ops.drop_last();
                if nums.len() == 0 {
                    (nums, ops1)
                } else {
                    let a2 = nums.last();
                    let nums1 = nums.drop_last();
                    if nums1.len() == 0 {
                        (nums1, ops1)
                    } else {
                        let a1 = nums1.last();
                        let nums2 = nums1.drop_last();
                        match cal_spec(a1, a2, y) {
                            None => (nums2, ops1),
                            Some(n) => (push20(nums2, n), push20(ops1, c)),
                        }
                    }
                }
            } else {
                (nums, push20(ops, c))
            }
        }
    } else if '0' <= c <= '9' {
        (push20(nums, ((c as int) - ('0' as int)) as i32), ops)
    } else {
        (nums, ops)
    }
}

/// The two stacks after scanning the first `i` characters of `s`.
pub open spec fn scanned(s: Seq<char>, i: int) -> (Seq<i32>, Seq<char>)
    decreases i,
{
    if i <= 0 {
        (Seq::empty(), Seq::empty())
    } else {
        let prev = scanned(s, i - 1);
        scan_step(prev.0, prev.1, s[i - 1])
    }
}

/// One step of the final drain: pops an operator and applies it to the
/// two topmost operands (losing what it popped when operands are
/// missing or the application fails); does nothing when no operator is
/// left.
pub open spec fn drain_step(nums: Seq<i32>, ops: Seq<char>) -> (Seq<i32>, Seq<char>) {
    if ops.len() == 0 {
        (nums, ops)
    } else {
        let b = ops.last();
        let ops1 = ops.drop_last();
        if nums.len() == 0 {
            (nums, ops1)
        } else {
            let a2 = nums.last();
            let nums1 = nums.drop_last();
            if nums1.len() == 0 {
                (nums1, ops1)
            } else {
                let a1 = nums1.last();
                let nums2 = nums1.drop_last();
                match cal_spec(a1, a2, b) {
                    None => (nums2, ops1),
                    Some(n) => (push20(nums2, n), ops1),
                }
            }
        }
    }
}

/// The two stacks after `k` drain steps.
pub open spec fn drained(nums: Seq<i32>, ops: Seq<char>, k: int) -> (Seq<i32>, Seq<char>)
    decreases k,
{
    if k <= 0 {
        (nums, ops)
    } else {
        let prev = drained(nums, ops, k - 1);
        drain_step(prev.0, prev.1)
    }
}

/// The value `calculate` returns for `s`: scan every character, then
/// drain as many times as operands are stacked, then take the topmost
/// operand.
pub open spec fn calculate_spec(s: Seq<char>) -> Option<i32> {
    let st = scanned(s, s.len() as int);
    let fin = drained(st.0, st.1, st.0.len() as int);
    if fin.0.len() > 0 {
        Some(fin.0.last())
    } else {
        None
    }
}

/// Evaluates a single-digit infix expression with `+ - * /` and the
/// usual precedence, on two bounded stacks; `calculate_spec` states the
/// exact result, including what happens to malformed input, overflow
/// and division by zero.
pub fn calculate(s: &str) -> (r: Option<i32>)
    ensures
        r == calculate_spec(s@),
{
    let len = s.unicode_len();
    let mut v1: Stack<i32> = Stack::new(20);
    let mut v2: Stack<char> = Stack::new(20);
    let mut i: usize = 0;
    while i < len
        invariant
            v1.wf(),
            v2.wf(),
            v1.capacity() == 20,
            v2.capacity() == 20,
            i <= len,
            len == s@.len(),
            (v1.contents(), v2.contents()) == scanned(s@, i as int),
        decreases len - i,
    {
        let c = s.get_char(i);
        let ghost nums = v1.contents();
        let ghost ops = v2.contents();
        match c {
            '+' | '-' | '*' | '/' => {
                if v2.count == 0 {
                    v2.push(c);
                } else {
                    let y = v2.inner[v2.count - 1];
                    if ord(c, y) {
                        if let Some(b) = v2.pop() {
                            if let Some(a2) = v1.pop() {
                                if let Some(a1) = v1.pop() {
                                    if let Some(n) = cal(a1, a2, b) {
                                        v1.push(n);
                                        v2.push(c);
                                    }
                                }
                            }
                        }
                    } else {
                        v2.push(c);
                    }
                }
            },
            _ => {
                if '0' <= c && c <= '9' {
                    let d = (c as i32) - ('0' as i32);
                    v1.push(d);
                }
            },
        }
        proof {
            assert((v1.contents(), v2.contents()) == scan_step(nums, ops, c));
        }
        i = i + 1;
    }
    let ghost nums = v1.contents();
    let ghost ops = v2.contents();
    let rounds = v1.count;
    let mut t: usize = 0;
    while t < rounds
        invariant
            v1.wf(),
            v2.wf(),
            v1.capacity() == 20,
            v2.capacity() == 20,
            t <= rounds,
            (v1.contents(), v2.contents()) == drained(nums, ops, t as int),
        decreases rounds - t,
    {
        let ghost n0 = v1.contents();
        let ghost o0 = v2.contents();
        if let Some(b) = v2.pop() {
            if let Some(a2) = v1.pop() {
                if let Some(a1) = v1.pop() {
                    if let Some(n) = cal(a1, a2, b) {
                        v1.push(n);
                    }
                }
            }
        }
        proof {
            assert((v1.contents(), v2.contents()) == drain_step(n0, o0));
        }
        t = t + 1;
    }
    v1.pop()
}

/// Whether operator `x` yields precedence to the stacked operator `y`:
/// true when `x` binds no tighter than `y`, false otherwise.
fn ord(x: char, y: char) -> (r: bool)
    ensures
        r == precedes(x, y),
{
    match (x, y) {
        ('+', '-') | ('-', '+') | ('*', '/') | ('/', '*') => true,
        ('+', '*') | ('+', '/') | ('-', '*') | ('-', '/') => true,
        (_, _) => false,
    }
}

/// Applies the operator `z` to `x` and `y` with checked arithmetic:
/// exactly `cal_spec`.
fn cal(x: i32, y: i32, z: char) -> (r: Option<i32>)
    ensures
        r == cal_spec(x, y, z),
{
    match z {
        '+' => x.checked_add(y),
        '-' => x.checked_sub(y),
        '*' => x.checked_mul(y),
        '/' => x.checked_div(y),
        _ => None,
    }
}

} // verus!

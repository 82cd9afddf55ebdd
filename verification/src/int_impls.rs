//! The element traits for the primitive integer types.

use vstd::prelude::*;
use crate::num_traits::{Adjacent, Ordinal, Step};

verus! {

impl Ordinal for u8 {
    open spec fn ord(&self) -> int {
        *self as int
    }

    open spec fn ord_min() -> int {
        0
    }

    open spec fn ord_max() -> int {
        u8::MAX as int
    }

    proof fn ord_laws() {
    }

    fn sign_magnitude(&self) -> (r: (bool, u128)) {
        (false, *self as u128)
    }
}

impl Adjacent for u8 {
    fn predecessor(&self) -> (r: Option<Self>) {
        self.checked_sub(1)
    }

    fn successor(&self) -> (r: Option<Self>) {
        self.checked_add(1)
    }
}

impl Step for u8 {
    fn steps_between(start: &Self, end: &Self) -> (r: Option<usize>) {
        if *start <= *end {
            Some((*end - *start) as usize)
        } else {
            None
        }
    }
}

impl Ordinal for u16 {
    open spec fn ord(&self) -> int {
        *self as int
    }

    open spec fn ord_min() -> int {
        0
    }

    open spec fn ord_max() -> int {
        u16::MAX as int
    }

    proof fn ord_laws() {
    }

    fn sign_magnitude(&self) -> (r: (bool, u128)) {
        (false, *self as u128)
    }
}

impl Adjacent for u16 {
    fn predecessor(&self) -> (r: Option<Self>) {
        self.checked_sub(1)
    }

    fn successor(&self) -> (r: Option<Self>) {
        self.checked_add(1)
    }
}

impl Step for u16 {
    fn steps_between(start: &Self, end: &Self) -> (r: Option<usize>) {
        if *start <= *end {
            Some((*end - *start) as usize)
        } else {
            None
        }
    }
}

impl Ordinal for u32 {
    open spec fn ord(&self) -> int {
        *self as int
    }

    open spec fn ord_min() -> int {
        0
    }

    open spec fn ord_max() -> int {
        u32::MAX as int
    }

    proof fn ord_laws() {
    }

    fn sign_magnitude(&self) -> (r: (bool, u128)) {
        (false, *self as u128)
    }
}

impl Adjacent for u32 {
    fn predecessor(&self) -> (r: Option<Self>) {
        self.checked_sub(1)
    }

    fn successor(&self) -> (r: Option<Self>) {
        self.checked_add(1)
    }
}

impl Step for u32 {
    fn steps_between(start: &Self, end: &Self) -> (r: Option<usize>) {
        if *start <= *end {
            Some((*end - *start) as usize)
        } else {
            None
        }
    }
}

impl Ordinal for usize {
    open spec fn ord(&self) -> int {
        *self as int
    }

    open spec fn ord_min() -> int {
        0
    }

    open spec fn ord_max() -> int {
        usize::MAX as int
    }

    proof fn ord_laws() {
    }

    fn sign_magnitude(&self) -> (r: (bool, u128)) {
        (false, *self as u128)
    }
}

impl Adjacent for usize {
    fn predecessor(&self) -> (r: Option<Self>) {
        self.checked_sub(1)
    }

    fn successor(&self) -> (r: Option<Self>) {
        self.checked_add(1)
    }
}

impl Step for usize {
    fn steps_between(start: &Self, end: &Self) -> (r: Option<usize>) {
        if *start <= *end {
            Some((*end - *start) as usize)
        } else {
            None
        }
    }
}

impl Ordinal for u64 {
    open spec fn ord(&self) -> int {
        *self as int
    }

    open spec fn ord_min() -> int {
        0
    }

    open spec fn ord_max() -> int {
        u64::MAX as int
    }

    proof fn ord_laws() {
    }

    fn sign_magnitude(&self) -> (r: (bool, u128)) {
        (false, *self as u128)
    }
}

impl Adjacent for u64 {
    fn predecessor(&self) -> (r: Option<Self>) {
        self.checked_sub(1)
    }

    fn successor(&self) -> (r: Option<Self>) {
        self.checked_add(1)
    }
}

impl Step for u64 {
    fn steps_between(start: &Self, end: &Self) -> (r: Option<usize>) {
        if *start <= *end {
            let d = *end - *start;
            if d <= usize::MAX as u64 {
                Some(d as usize)
            } else {
                None
            }
        } else {
            None
        }
    }
}

impl Ordinal for u128 {
    open spec fn ord(&self) -> int {
        *self as int
    }

    open spec fn ord_min() -> int {
        0
    }

    open spec fn ord_max() -> int {
        u128::MAX as int
    }

    proof fn ord_laws() {
    }

    fn sign_magnitude(&self) -> (r: (bool, u128)) {
        (false, *self as u128)
    }
}

impl Adjacent for u128 {
    fn predecessor(&self) -> (r: Option<Self>) {
        self.checked_sub(1)
    }

    fn successor(&self) -> (r: Option<Self>) {
        self.checked_add(1)
    }
}

impl Step for u128 {
    fn steps_between(start: &Self, end: &Self) -> (r: Option<usize>) {
        if *start <= *end {
            let d = *end - *start;
            if d <= usize::MAX as u128 {
                Some(d as usize)
            } else {
                None
            }
        } else {
            None
        }
    }
}

impl Ordinal for i8 {
    open spec fn ord(&self) -> int {
        *self as int
    }

    open spec fn ord_min() -> int {
        i8::MIN as int
    }

    open spec fn ord_max() -> int {
        i8::MAX as int
    }

    proof fn ord_laws() {
    }

    fn sign_magnitude(&self) -> (r: (bool, u128)) {
        if *self < 0 {
            (true, (-(*self as i128 + 1)) as u128 + 1)
        } else {
            (false, *self as u128)
        }
    }
}

impl Adjacent for i8 {
    fn predecessor(&self) -> (r: Option<Self>) {
        self.checked_sub(1)
    }

    fn successor(&self) -> (r: Option<Self>) {
        self.checked_add(1)
    }
}

impl Step for i8 {
    fn steps_between(start: &Self, end: &Self) -> (r: Option<usize>) {
        if *start <= *end {
            Some((*end as i64 - *start as i64) as usize)
        } else {
            None
        }
    }
}

impl Ordinal for i16 {
    open spec fn ord(&self) -> int {
        *self as int
    }

    open spec fn ord_min() -> int {
        i16::MIN as int
    }

    open spec fn ord_max() -> int {
        i16::MAX as int
    }

    proof fn ord_laws() {
    }

    fn sign_magnitude(&self) -> (r: (bool, u128)) {
        if *self < 0 {
            (true, (-(*self as i128 + 1)) as u128 + 1)
        } else {
            (false, *self as u128)
        }
    }
}

impl Adjacent for i16 {
    fn predecessor(&self) -> (r: Option<Self>) {
        self.checked_sub(1)
    }

    fn successor(&self) -> (r: Option<Self>) {
        self.checked_add(1)
    }
}

impl Step for i16 {
    fn steps_between(start: &Self, end: &Self) -> (r: Option<usize>) {
        if *start <= *end {
            Some((*end as i64 - *start as i64) as usize)
        } else {
            None
        }
    }
}

impl Ordinal for i32 {
    open spec fn ord(&self) -> int {
        *self as int
    }

    open spec fn ord_min() -> int {
        i32::MIN as int
    }

    open spec fn ord_max() -> int {
        i32::MAX as int
    }

    proof fn ord_laws() {
    }

    fn sign_magnitude(&self) -> (r: (bool, u128)) {
        if *self < 0 {
            (true, (-(*self as i128 + 1)) as u128 + 1)
        } else {
            (false, *self as u128)
        }
    }
}

impl Adjacent for i32 {
    fn predecessor(&self) -> (r: Option<Self>) {
        self.checked_sub(1)
    }

    fn successor(&self) -> (r: Option<Self>) {
        self.checked_add(1)
    }
}

impl Step for i32 {
    fn steps_between(start: &Self, end: &Self) -> (r: Option<usize>) {
        if *start <= *end {
            Some((*end as i64 - *start as i64) as usize)
        } else {
            None
        }
    }
}

impl Ordinal for i64 {
    open spec fn ord(&self) -> int {
        *self as int
    }

    open spec fn ord_min() -> int {
        i64::MIN as int
    }

    open spec fn ord_max() -> int {
        i64::MAX as int
    }

    proof fn ord_laws() {
    }

    fn sign_magnitude(&self) -> (r: (bool, u128)) {
        if *self < 0 {
            (true, (-(*self as i128 + 1)) as u128 + 1)
        } else {
            (false, *self as u128)
        }
    }
}

impl Adjacent for i64 {
    fn predecessor(&self) -> (r: Option<Self>) {
        self.checked_sub(1)
    }

    fn successor(&self) -> (r: Option<Self>) {
        self.checked_add(1)
    }
}

impl Step for i64 {
    fn steps_between(start: &Self, end: &Self) -> (r: Option<usize>) {
        if *start <= *end {
            let d: i128 = *end as i128 - *start as i128;
            if d <= usize::MAX as i128 {
                Some(d as usize)
            } else {
                None
            }
        } else {
            None
        }
    }
}

impl Ordinal for isize {
    open spec fn ord(&self) -> int {
        *self as int
    }

    open spec fn ord_min() -> int {
        isize::MIN as int
    }

    open spec fn ord_max() -> int {
        isize::MAX as int
    }

    proof fn ord_laws() {
    }

    fn sign_magnitude(&self) -> (r: (bool, u128)) {
        if *self < 0 {
            (true, (-(*self as i128 + 1)) as u128 + 1)
        } else {
            (false, *self as u128)
        }
    }
}

impl Adjacent for isize {
    fn predecessor(&self) -> (r: Option<Self>) {
        self.checked_sub(1)
    }

    fn successor(&self) -> (r: Option<Self>) {
        self.checked_add(1)
    }
}

impl Step for isize {
    fn steps_between(start: &Self, end: &Self) -> (r: Option<usize>) {
        if *start <= *end {
            let d: i128 = *end as i128 - *start as i128;
            if d <= usize::MAX as i128 {
                Some(d as usize)
            } else {
                None
            }
        } else {
            None
        }
    }
}

impl Ordinal for i128 {
    open spec fn ord(&self) -> int {
        *self as int
    }

    open spec fn ord_min() -> int {
        i128::MIN as int
    }

    open spec fn ord_max() -> int {
        i128::MAX as int
    }

    proof fn ord_laws() {
    }

    fn sign_magnitude(&self) -> (r: (bool, u128)) {
        if *self < 0 {
            (true, (-(*self + 1)) as u128 + 1)
        } else {
            (false, *self as u128)
        }
    }
}

impl Adjacent for i128 {
    fn predecessor(&self) -> (r: Option<Self>) {
        self.checked_sub(1)
    }

    fn successor(&self) -> (r: Option<Self>) {
        self.checked_add(1)
    }
}

impl Step for i128 {
    fn steps_between(start: &Self, end: &Self) -> (r: Option<usize>) {
        if *start <= *end {
            match end.checked_sub(*start) {
                Some(d) => {
                    if d <= usize::MAX as i128 {
                        Some(d as usize)
                    } else {
                        None
                    }
                },
                None => None,
            }
        } else {
            None
        }
    }
}

} // verus!

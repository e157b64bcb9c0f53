//! Orders and their classification.
//!
//! An order carries a limit price and a stop price. Each of the two has a
//! sentinel that stands for "no constraint", and the sentinels depend on the
//! side: a bid without a limit accepts any price up to the maximum, an ask
//! without a limit accepts any price down to zero; a bid without a stop has
//! stop price zero, an ask without a stop has the maximum.

use crate::u256::U256;
use vstd::prelude::*;

verus! {

/// The direction of an order.
#[derive(Clone, Copy, Debug, PartialEq, Eq, Structural)]
pub enum Side {
    Bid,
    Ask,
}

/// The kind of an order, derived from its side and its two price fields.
#[derive(Clone, Copy, Debug, PartialEq, Eq, Structural)]
pub enum OrderType {
    Market,
    Limit,
    Stop,
    StopLimit,
}

/// The side and price fields of an order do not encode any order type.
#[derive(Clone, Copy, Debug, PartialEq, Eq, Structural)]
pub struct InvalidOrder;

impl InvalidOrder {
    /// The error in words.
    pub fn message(&self) -> (r: String)
        ensures
            r@ == "Invalid order type"@,
    {
        "Invalid order type".to_owned()
    }
}

impl Side {
    /// The side an order of this side trades against.
    pub open spec fn spec_opposite(self) -> Side {
        match self {
            Side::Bid => Side::Ask,
            Side::Ask => Side::Bid,
        }
    }

    /// The side an order of this side trades against.
    #[verifier::when_used_as_spec(spec_opposite)]
    pub fn opposite(self) -> (r: Side)
        ensures
            r == self.spec_opposite(),
    {
        match self {
            Side::Bid => Side::Ask,
            Side::Ask => Side::Bid,
        }
    }
}

/// What an order is, as plain mathematical values.
pub struct OrderView {
    pub owner: Seq<char>,
    pub nonce: nat,
    pub quantity: nat,
    pub filled_quantity: nat,
    pub limit_price: nat,
    pub stop_price: nat,
    pub expire_timestamp: u64,
    pub side: Side,
    pub only_full_fill: bool,
}

impl OrderView {
    /// The limit price that means "no limit" on the given side.
    pub open spec fn no_limit(side: Side) -> nat {
        match side {
            Side::Bid => U256::max(),
            Side::Ask => 0,
        }
    }

    /// The stop price that means "no stop" on the given side.
    pub open spec fn no_stop(side: Side) -> nat {
        match side {
            Side::Bid => 0,
            Side::Ask => U256::max(),
        }
    }

    /// Whether the limit price is a real bound: on the tradable side of the
    /// sentinel.
    pub open spec fn has_limit(self) -> bool {
        match self.side {
            Side::Bid => self.limit_price < U256::max(),
            Side::Ask => self.limit_price > 0,
        }
    }

    /// Whether the stop price is a real trigger: on the tradable side of the
    /// sentinel.
    pub open spec fn has_stop(self) -> bool {
        match self.side {
            Side::Bid => self.stop_price > 0,
            Side::Ask => self.stop_price < U256::max(),
        }
    }

    /// The order type that the side and the two price fields encode, if any.
    pub open spec fn kind(self) -> Option<OrderType> {
        let unlimited = self.limit_price == Self::no_limit(self.side);
        let unstopped = self.stop_price == Self::no_stop(self.side);
        if unlimited && unstopped {
            Some(OrderType::Market)
        } else if self.has_limit() && unstopped {
            Some(OrderType::Limit)
        } else if unlimited && self.has_stop() {
            Some(OrderType::Stop)
        } else if self.has_limit() && self.has_stop() {
            Some(OrderType::StopLimit)
        } else {
            None
        }
    }

    /// The filled quantity does not exceed the quantity.
    pub open spec fn within_quantity(self) -> bool {
        self.filled_quantity <= self.quantity
    }

    /// The part of the quantity that is not matched yet.
    pub open spec fn remaining(self) -> nat {
        (self.quantity - self.filled_quantity) as nat
    }

    /// The order after `amount` more has been matched.
    pub open spec fn filled_by(self, amount: nat) -> OrderView {
        OrderView { filled_quantity: self.filled_quantity + amount, ..self }
    }
}

/// One order record.
#[derive(Debug)]
pub struct Order {
    owner: String,
    nonce: U256,
    quantity: U256,
    filled_quantity: U256,
    limit_price: U256,
    stop_price: U256,
    expire_timestamp: u64,
    side: Side,
    only_full_fill: bool,
}

impl View for Order {
    type V = OrderView;

    closed spec fn view(&self) -> OrderView {
        OrderView {
            owner: self.owner@,
            nonce: self.nonce@,
            quantity: self.quantity@,
            filled_quantity: self.filled_quantity@,
            limit_price: self.limit_price@,
            stop_price: self.stop_price@,
            expire_timestamp: self.expire_timestamp,
            side: self.side,
            only_full_fill: self.only_full_fill,
        }
    }
}

impl Clone for Order {
    fn clone(&self) -> (r: Order)
        ensures
            r@ == self@,
    {
        proof {
            use_type_invariant(self);
        }
        Order {
            owner: self.owner.clone(),
            nonce: self.nonce,
            quantity: self.quantity,
            filled_quantity: self.filled_quantity,
            limit_price: self.limit_price,
            stop_price: self.stop_price,
            expire_timestamp: self.expire_timestamp,
            side: self.side,
            only_full_fill: self.only_full_fill,
        }
    }
}

impl Order {
    /// Every order keeps its filled quantity within its quantity.
    #[verifier::type_invariant]
    pub open spec fn wf(self) -> bool {
        self@.within_quantity()
    }

    /// A new order with nothing filled.
    pub fn new(
        owner: String,
        nonce: U256,
        quantity: U256,
        limit_price: U256,
        stop_price: U256,
        expire_timestamp: u64,
        side: Side,
        only_full_fill: bool,
    ) -> (r: Order)
        ensures
            r@ == (OrderView {
                owner: owner@,
                nonce: nonce@,
                quantity: quantity@,
                filled_quantity: 0,
                limit_price: limit_price@,
                stop_price: stop_price@,
                expire_timestamp,
                side,
                only_full_fill,
            }),
    {
        Order {
            owner,
            nonce,
            quantity,
            filled_quantity: U256::zero(),
            limit_price,
            stop_price,
            expire_timestamp,
            side,
            only_full_fill,
        }
    }

    /// Every price and quantity of an order fits in 256 bits.
    pub proof fn lemma_fields_bounded(self)
        ensures
            self@.nonce <= U256::max(),
            self@.quantity <= U256::max(),
            self@.filled_quantity <= U256::max(),
            self@.limit_price <= U256::max(),
            self@.stop_price <= U256::max(),
    {
        self.nonce.lemma_bounded();
        self.quantity.lemma_bounded();
        self.filled_quantity.lemma_bounded();
        self.limit_price.lemma_bounded();
        self.stop_price.lemma_bounded();
    }

    /// Every order encodes exactly one of the four order types: on each side
    /// a price either is the sentinel or lies on the tradable side of it.
    pub proof fn lemma_kind_total(self)
        ensures
            self@.kind() is Some,
    {
        self.lemma_fields_bounded();
    }

    /// Classifies the order by its side and its two price fields.
    pub fn order_type(&self) -> (r: Result<OrderType, InvalidOrder>)
        ensures
            r == (match self@.kind() {
                Some(kind) => Ok::<OrderType, InvalidOrder>(kind),
                None => Err(InvalidOrder),
            }),
    {
        let zero = U256::zero();
        let max = U256::max_value();
        match self.side {
            Side::Bid => {
                if self.limit_price.is_max() && self.stop_price.is_zero() {
                    Ok(OrderType::Market)
                } else if self.limit_price.lt(&max) && self.stop_price.is_zero() {
                    Ok(OrderType::Limit)
                } else if self.limit_price.is_max() && self.stop_price.gt(&zero) {
                    Ok(OrderType::Stop)
                } else if self.limit_price.lt(&max) && self.stop_price.gt(&zero) {
                    Ok(OrderType::StopLimit)
                } else {
                    Err(InvalidOrder)
                }
            },
            Side::Ask => {
                if self.limit_price.is_zero() && self.stop_price.is_max() {
                    Ok(OrderType::Market)
                } else if self.limit_price.gt(&zero) && self.stop_price.is_max() {
                    Ok(OrderType::Limit)
                } else if self.limit_price.is_zero() && self.stop_price.lt(&max) {
                    Ok(OrderType::Stop)
                } else if self.limit_price.gt(&zero) && self.stop_price.lt(&max) {
                    Ok(OrderType::StopLimit)
                } else {
                    Err(InvalidOrder)
                }
            },
        }
    }

    /// The identity of the submitting party.
    pub fn owner(&self) -> (r: &String)
        ensures
            r@ == self@.owner,
    {
        &self.owner
    }

    /// The owner's own number for the order.
    pub fn nonce(&self) -> (r: U256)
        ensures
            r@ == self@.nonce,
    {
        self.nonce
    }

    /// The total size asked for.
    pub fn quantity(&self) -> (r: U256)
        ensures
            r@ == self@.quantity,
    {
        self.quantity
    }

    /// The size matched so far.
    pub fn filled_quantity(&self) -> (r: U256)
        ensures
            r@ == self@.filled_quantity,
    {
        self.filled_quantity
    }

    /// The price bound, or the sentinel for none.
    pub fn limit_price(&self) -> (r: U256)
        ensures
            r@ == self@.limit_price,
    {
        self.limit_price
    }

    /// The trigger price, or the sentinel for none.
    pub fn stop_price(&self) -> (r: U256)
        ensures
            r@ == self@.stop_price,
    {
        self.stop_price
    }

    /// The time after which the order should no longer rest. It is carried,
    /// not enforced.
    pub fn expire_timestamp(&self) -> (r: u64)
        ensures
            r == self@.expire_timestamp,
    {
        self.expire_timestamp
    }

    /// The direction of the order.
    pub fn side(&self) -> (r: Side)
        ensures
            r == self@.side,
    {
        self.side
    }

    /// Whether the order may only be filled in full.
    pub fn only_full_fill(&self) -> (r: bool)
        ensures
            r == self@.only_full_fill,
    {
        self.only_full_fill
    }

    /// The part of the quantity that is not matched yet.
    pub fn remaining(&self) -> (r: U256)
        ensures
            r@ == self@.remaining(),
    {
        proof {
            use_type_invariant(self);
        }
        match self.quantity.checked_sub(self.filled_quantity) {
            Some(rest) => rest,
            None => U256::zero(),
        }
    }

    /// Records that `amount` more of the order has been matched.
    pub(crate) fn fill(&mut self, amount: U256)
        requires
            amount@ <= old(self)@.remaining(),
        ensures
            final(self)@ == old(self)@.filled_by(amount@),
    {
        proof {
            use_type_invariant(&*self);
            self.quantity.lemma_bounded();
        }
        match self.filled_quantity.checked_add(amount) {
            Some(filled) => {
                self.filled_quantity = filled;
            },
            None => {},
        }
    }
}

} // verus!

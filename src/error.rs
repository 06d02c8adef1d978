use vstd::prelude::*;

verus! {

/// Why an operation on a market or its order book was rejected.
#[derive(Clone, Copy, Debug, PartialEq, Eq, Structural)]
pub enum OrderBookError {
    /// The side that the order goes to already holds its maximum of orders.
    OrderBookFull,
    /// A quote amount, fee or decimal scale does not fit in 64 bits.
    ErrorInMultiply,
    /// A price, amount or fee rate is outside its allowed range.
    ErrorValueInvalid,
    /// An account handed in for a settlement is not a token account.
    InvalidAta,
    /// No account handed in is the associated token account looked for.
    AtaNotFound,
    /// Every order id has been handed out.
    OrderIdExhausted,
}

/// The message shown for an error.
pub open spec fn message_text(e: OrderBookError) -> Seq<char> {
    match e {
        OrderBookError::OrderBookFull => "OrderBook is full"@,
        OrderBookError::ErrorInMultiply => "Error in calulting the Bid Amount"@,
        OrderBookError::ErrorValueInvalid => "Enter Valid Value"@,
        OrderBookError::InvalidAta => "The Ata is invaild"@,
        OrderBookError::AtaNotFound => "The Ata not found"@,
        OrderBookError::OrderIdExhausted => "No order id is left"@,
    }
}

impl OrderBookError {
    /// The message shown for this error.
    pub fn message(&self) -> (r: String)
        ensures
            r@ == message_text(*self),
    {
        match self {
            OrderBookError::OrderBookFull => String::from_str("OrderBook is full"),
            OrderBookError::ErrorInMultiply => String::from_str("Error in calulting the Bid Amount"),
            OrderBookError::ErrorValueInvalid => String::from_str("Enter Valid Value"),
            OrderBookError::InvalidAta => String::from_str("The Ata is invaild"),
            OrderBookError::AtaNotFound => String::from_str("The Ata not found"),
            OrderBookError::OrderIdExhausted => String::from_str("No order id is left"),
        }
    }
}

} // verus!

//! The checks that a request passes before a book works on it.

use crate::orders::OrderRequest;
use vstd::prelude::*;

verus! {

/// Why a request was refused.
#[derive(Debug, Copy, Clone, PartialEq, Eq, Structural)]
pub enum ValidationError {
    /// The base asset is not the one that the book trades.
    BadOrderAsset,
    /// The quote asset is not the one that the book prices in.
    BadPriceAsset,
    /// The limit price is zero.
    BadPriceValue,
    /// The quantity is zero.
    BadQuantityValue,
}

impl ValidationError {
    /// The reason in words.
    pub open spec fn text(self) -> Seq<char> {
        match self {
            ValidationError::BadOrderAsset => "bad order asset"@,
            ValidationError::BadPriceAsset => "bad price asset"@,
            ValidationError::BadPriceValue => "price must be positive"@,
            ValidationError::BadQuantityValue => "quantity must be positive"@,
        }
    }

    /// The reason in words.
    pub fn message(&self) -> (reason: String)
        ensures
            reason@ == self.text(),
    {
        match self {
            ValidationError::BadOrderAsset => "bad order asset".to_string(),
            ValidationError::BadPriceAsset => "bad price asset".to_string(),
            ValidationError::BadPriceValue => "price must be positive".to_string(),
            ValidationError::BadQuantityValue => "quantity must be positive".to_string(),
        }
    }
}

/// The first rule that a request breaks, if it breaks one. A new order has
/// to name the asset pair of the book; a limit price, new or amended, and a
/// quantity have to be positive.
pub open spec fn first_violation(
    book_order_asset: Seq<char>,
    book_price_asset: Seq<char>,
    request: OrderRequest,
) -> Option<ValidationError> {
    match request {
        OrderRequest::NewMarketOrder { order_asset, price_asset, qty, .. } => {
            if order_asset@ != book_order_asset {
                Some(ValidationError::BadOrderAsset)
            } else if price_asset@ != book_price_asset {
                Some(ValidationError::BadPriceAsset)
            } else if qty == 0 {
                Some(ValidationError::BadQuantityValue)
            } else {
                None
            }
        },
        OrderRequest::NewLimitOrder { order_asset, price_asset, price, qty, .. } => {
            if order_asset@ != book_order_asset {
                Some(ValidationError::BadOrderAsset)
            } else if price_asset@ != book_price_asset {
                Some(ValidationError::BadPriceAsset)
            } else if price == 0 {
                Some(ValidationError::BadPriceValue)
            } else if qty == 0 {
                Some(ValidationError::BadQuantityValue)
            } else {
                None
            }
        },
        OrderRequest::AmendOrder { price, qty, .. } => {
            if price == 0 {
                Some(ValidationError::BadPriceValue)
            } else if qty == 0 {
                Some(ValidationError::BadQuantityValue)
            } else {
                None
            }
        },
        OrderRequest::CancelOrder { .. } => None,
    }
}

/// Checks requests against the asset pair of one book.
#[derive(Debug)]
pub struct OrderRequestValidator {
    order_asset: String,
    price_asset: String,
}

impl Clone for OrderRequestValidator {
    fn clone(&self) -> (copy: Self)
        ensures
            copy.order_asset() == self.order_asset(),
            copy.price_asset() == self.price_asset(),
    {
        OrderRequestValidator {
            order_asset: self.order_asset.clone(),
            price_asset: self.price_asset.clone(),
        }
    }
}

impl OrderRequestValidator {
    /// The base asset of the book.
    pub closed spec fn order_asset(&self) -> Seq<char> {
        self.order_asset@
    }

    /// The quote asset of the book.
    pub closed spec fn price_asset(&self) -> Seq<char> {
        self.price_asset@
    }

    /// The validator of the book that trades `order_asset` against
    /// `price_asset`.
    pub fn new(order_asset: String, price_asset: String) -> (validator: Self)
        ensures
            validator.order_asset() == order_asset@,
            validator.price_asset() == price_asset@,
    {
        OrderRequestValidator { order_asset, price_asset }
    }

    /// Whether the request names the asset pair of the book.
    fn check_assets(&self, order_asset: &String, price_asset: &String) -> (checked: Result<
        (),
        ValidationError,
    >)
        ensures
            checked == (if order_asset@ != self.order_asset() {
                Err::<(), ValidationError>(ValidationError::BadOrderAsset)
            } else if price_asset@ != self.price_asset() {
                Err(ValidationError::BadPriceAsset)
            } else {
                Ok(())
            }),
    {
        if *order_asset != self.order_asset {
            Err(ValidationError::BadOrderAsset)
        } else if *price_asset != self.price_asset {
            Err(ValidationError::BadPriceAsset)
        } else {
            Ok(())
        }
    }

    /// Accepts the request or names the first rule that it breaks.
    pub fn validate(&self, request: &OrderRequest) -> (checked: Result<(), ValidationError>)
        ensures
            match checked {
                Ok(()) => first_violation(self.order_asset(), self.price_asset(), *request)
                    is None,
                Err(reason) => first_violation(self.order_asset(), self.price_asset(), *request)
                    == Some(reason),
            },
    {
        match request {
            OrderRequest::NewMarketOrder { order_asset, price_asset, qty, .. } => {
                match self.check_assets(order_asset, price_asset) {
                    Err(reason) => Err(reason),
                    Ok(()) => {
                        if *qty == 0 {
                            Err(ValidationError::BadQuantityValue)
                        } else {
                            Ok(())
                        }
                    },
                }
            },
            OrderRequest::NewLimitOrder { order_asset, price_asset, price, qty, .. } => {
                match self.check_assets(order_asset, price_asset) {
                    Err(reason) => Err(reason),
                    Ok(()) => {
                        if *price == 0 {
                            Err(ValidationError::BadPriceValue)
                        } else if *qty == 0 {
                            Err(ValidationError::BadQuantityValue)
                        } else {
                            Ok(())
                        }
                    },
                }
            },
            OrderRequest::AmendOrder { price, qty, .. } => {
                if *price == 0 {
                    Err(ValidationError::BadPriceValue)
                } else if *qty == 0 {
                    Err(ValidationError::BadQuantityValue)
                } else {
                    Ok(())
                }
            },
            OrderRequest::CancelOrder { .. } => Ok(()),
        }
    }
}

} // verus!

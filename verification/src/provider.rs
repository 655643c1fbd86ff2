//! Average prices per time window, as a series over a time range.
//!
//! A range is cut into windows of one minute. For each window, in order, the
//! trades of the symbol are asked for, their prices are read as exact
//! decimals and averaged. A window without trades adds nothing to the
//! series; the first failure ends the whole computation.

use crate::binance_api::{
    deserialize_trades,
    records,
    trades_of_text,
    AggTradesResponseItem,
    BinanceAPI,
    FetchError,
    TradeRecord,
};
use crate::decimal::{decimal_of_text, Decimal, DecimalValue};
use crate::time_window::{
    first_window,
    lemma_window_count,
    next_window,
    window_count,
    window_start,
    TimeWindow,
};
use vstd::prelude::*;

verus! {

/// The length of a time window: one minute, in milliseconds.
pub const TIME_WINDOW: i64 = 60_000;

/// The number that a `MeanPrice` stands for: `total / count`.
pub struct MeanValue {
    pub total: DecimalValue,
    pub count: nat,
}

impl MeanValue {
    /// The mean, cut off behind the digit that counts multiples of
    /// `10^-scale`, or behind the last digit of the total if that stands
    /// further back.
    pub open spec fn truncated(self, scale: nat) -> DecimalValue {
        self.total.quotient(self.count, scale)
    }
}

/// What a `PricePoint` holds.
pub struct PointValue {
    pub timestamp: int,
    pub price: MeanValue,
}

/// What a `PriceError` holds.
pub enum Failure {
    Fetch(Seq<char>),
    Deserialization,
    PriceParse(Seq<char>),
}

/// What a request for trades brought: the text of the answer, or the message
/// of the failure.
pub type Reply = Result<Seq<char>, Seq<char>>;

/// The arithmetic mean of the prices of one window, kept exactly as their
/// total and their count.
#[derive(Debug)]
pub struct MeanPrice {
    total: Decimal,
    count: usize,
}

impl View for MeanPrice {
    type V = MeanValue;

    closed spec fn view(&self) -> MeanValue {
        MeanValue { total: self.total@, count: self.count as nat }
    }
}

impl MeanPrice {
    #[verifier::type_invariant]
    spec fn well_formed(&self) -> bool {
        self.count > 0
    }

    /// The mean as a decimal number with at least `scale` digits behind the
    /// decimal point, and what is left over dropped.
    pub fn to_decimal(&self, scale: usize) -> (mean: Decimal)
        ensures
            mean@ == self@.truncated(scale as nat),
    {
        proof {
            use_type_invariant(self);
        }
        self.total.quotient(self.count, scale)
    }

    /// The sum of the prices.
    pub fn total(&self) -> (total: &Decimal)
        ensures
            total@ == self@.total,
    {
        &self.total
    }

    /// The number of prices, which is not zero.
    pub fn count(&self) -> (count: usize)
        ensures
            count == self@.count,
            count > 0,
    {
        proof {
            use_type_invariant(self);
        }
        self.count
    }
}

/// The average price of the trades of one window.
#[derive(Debug)]
pub struct PricePoint {
    /// The first instant of the window, in milliseconds since the epoch.
    pub timestamp: i64,
    pub price: MeanPrice,
}

impl View for PricePoint {
    type V = PointValue;

    open spec fn view(&self) -> PointValue {
        PointValue { timestamp: self.timestamp as int, price: self.price@ }
    }
}

/// Price points in the order of their windows.
pub type PriceSeries = Vec<PricePoint>;

/// What each point of a series holds.
pub open spec fn points(series: Seq<PricePoint>) -> Seq<PointValue> {
    Seq::new(series.len(), |k: int| series[k]@)
}

/// Why a series could not be computed.
#[derive(Debug)]
pub enum PriceError {
    /// The request for the trades of a window failed.
    Fetch(FetchError),
    /// The answer for a window was no list of trades.
    Deserialization,
    /// The price of a trade, given here, was no number in plain decimal
    /// notation.
    PriceParse(String),
}

impl View for PriceError {
    type V = Failure;

    open spec fn view(&self) -> Failure {
        match self {
            PriceError::Fetch(error) => Failure::Fetch(error.message@),
            PriceError::Deserialization => Failure::Deserialization,
            PriceError::PriceParse(text) => Failure::PriceParse(text@),
        }
    }
}

/// What a response holds.
pub open spec fn reply_of(response: Result<String, FetchError>) -> Reply {
    match response {
        Ok(text) => Ok(text@),
        Err(error) => Err(error.message@),
    }
}

/// The price text of each trade.
pub open spec fn price_texts(trades: Seq<TradeRecord>) -> Seq<Seq<char>> {
    Seq::new(trades.len(), |k: int| trades[k].p)
}

/// The first text that is no decimal number.
pub open spec fn first_unreadable(texts: Seq<Seq<char>>) -> Option<Seq<char>>
    decreases texts.len(),
{
    if texts.len() == 0 {
        None
    } else if decimal_of_text(texts[0]) is None {
        Some(texts[0])
    } else {
        first_unreadable(texts.drop_first())
    }
}

/// The sum of the numbers that the texts stand for.
pub open spec fn price_total(texts: Seq<Seq<char>>) -> DecimalValue
    decreases texts.len(),
{
    if texts.len() == 0 {
        DecimalValue { unscaled: 0, scale: 0 }
    } else {
        price_total(texts.drop_last()).plus(decimal_of_text(texts.last()).unwrap())
    }
}

/// The mean of the prices: a failure with the first text that is no number;
/// nothing where there is no price; else their total and their count.
pub open spec fn average_of(texts: Seq<Seq<char>>) -> Result<Option<MeanValue>, Failure> {
    match first_unreadable(texts) {
        Some(text) => Err(Failure::PriceParse(text)),
        None => if texts.len() == 0 {
            Ok(None)
        } else {
            Ok(Some(MeanValue { total: price_total(texts), count: texts.len() }))
        },
    }
}

/// What a window comes to, given the reply to the request for its trades.
pub open spec fn window_outcome(reply: Reply) -> Result<Option<MeanValue>, Failure> {
    match reply {
        Err(message) => Err(Failure::Fetch(message)),
        Ok(text) => match trades_of_text(text) {
            None => Err(Failure::Deserialization),
            Some(trades) => average_of(price_texts(trades)),
        },
    }
}

/// What the average of a window holds.
pub open spec fn average_view(average: Result<Option<MeanPrice>, PriceError>) -> Result<
    Option<MeanValue>,
    Failure,
> {
    match average {
        Ok(Some(mean)) => Ok(Some(mean@)),
        Ok(None) => Ok(None),
        Err(error) => Err(error@),
    }
}

/// The series that the first windows of a range come to, given the replies
/// for them in order: the first failure, or else one point for each window
/// whose reply lists a trade.
pub open spec fn series_of(start_time: int, duration: int, replies: Seq<Reply>) -> Result<
    Seq<PointValue>,
    Failure,
>
    decreases replies.len(),
{
    if replies.len() == 0 {
        Ok(Seq::empty())
    } else {
        match series_of(start_time, duration, replies.drop_last()) {
            Err(failure) => Err(failure),
            Ok(series) => match window_outcome(replies.last()) {
                Err(failure) => Err(failure),
                Ok(None) => Ok(series),
                Ok(Some(price)) => Ok(
                    series.push(
                        PointValue {
                            timestamp: window_start(
                                start_time,
                                duration,
                                (replies.len() - 1) as nat,
                            ),
                            price,
                        },
                    ),
                ),
            },
        }
    }
}

/// Averages the prices of the trades of one window.
pub fn average_price(trades: &Vec<AggTradesResponseItem>) -> (average: Result<
    Option<MeanPrice>,
    PriceError,
>)
    ensures
        average_view(average) == average_of(price_texts(records(trades@))),
{
    let ghost texts = price_texts(records(trades@));
    let mut total = Decimal::zero();
    let mut at: usize = 0;
    assert(texts.skip(0) =~= texts);
    assert(texts.take(0) =~= Seq::<Seq<char>>::empty());
    while at < trades.len()
        invariant
            at <= trades.len(),
            texts == price_texts(records(trades@)),
            first_unreadable(texts) == first_unreadable(texts.skip(at as int)),
            total@ == price_total(texts.take(at as int)),
        decreases trades.len() - at,
    {
        assert(texts.skip(at as int).drop_first() =~= texts.skip(at + 1));
        assert(texts.take(at + 1).drop_last() =~= texts.take(at as int));
        assert(texts[at as int] == trades@[at as int].p@);
        match Decimal::parse(trades[at].p.as_str()) {
            Some(price) => {
                total = total.add(&price);
            },
            None => {
                return Err(PriceError::PriceParse(trades[at].p.clone()));
            },
        }
        at += 1;
    }
    assert(texts.take(at as int) =~= texts);
    if trades.len() == 0 {
        Ok(None)
    } else {
        Ok(Some(MeanPrice { total, count: trades.len() }))
    }
}

/// Turns the response to the request for the trades of one window into the
/// average price of the window.
pub fn window_average(response: Result<String, FetchError>) -> (average: Result<
    Option<MeanPrice>,
    PriceError,
>)
    ensures
        average_view(average) == window_outcome(reply_of(response)),
{
    match response {
        Err(error) => Err(PriceError::Fetch(error)),
        Ok(text) => match deserialize_trades(text.as_str()) {
            None => Err(PriceError::Deserialization),
            Some(trades) => average_price(&trades),
        },
    }
}

/// Takes the average of one window into the series: a point at the start of
/// the window where there is an average, nothing where the window held no
/// trade. A failure is handed back as it is, and leaves the series as it was.
pub fn extend_series(
    series: &mut PriceSeries,
    window: &TimeWindow,
    average: Result<Option<MeanPrice>, PriceError>,
) -> (outcome: Result<(), PriceError>)
    ensures
        match average {
            Err(error) => outcome == Err::<(), PriceError>(error) && final(series)@ == old(
                series,
            )@,
            Ok(None) => outcome is Ok && final(series)@ == old(series)@,
            Ok(Some(price)) => outcome is Ok && points(final(series)@) == points(old(series)@).push(
                PointValue { timestamp: window.start as int, price: price@ },
            ),
        },
{
    match average {
        Err(error) => Err(error),
        Ok(None) => Ok(()),
        Ok(Some(price)) => {
            series.push(PricePoint { timestamp: window.start, price });
            assert(points(series@) =~= points(old(series)@).push(
                PointValue { timestamp: window.start as int, price: price@ },
            ));
            Ok(())
        },
    }
}

/// What the result of a computation holds.
pub open spec fn series_view(result: Result<PriceSeries, PriceError>) -> Result<
    Seq<PointValue>,
    Failure,
> {
    match result {
        Ok(series) => Ok(points(series@)),
        Err(error) => Err(error@),
    }
}

/// Whether `result` is what the range comes to with `replies`, where the
/// replies are those for its windows in order, up to the last window or to
/// the first reply that makes a failure.
pub open spec fn is_series_for(
    result: Result<Seq<PointValue>, Failure>,
    start_time: int,
    end_time: int,
    duration: int,
    replies: Seq<Reply>,
) -> bool {
    &&& 0 < replies.len() <= window_count(start_time, end_time, duration)
    &&& result == series_of(start_time, duration, replies)
    &&& series_of(start_time, duration, replies.drop_last()) is Ok
    &&& result is Ok ==> replies.len() == window_count(start_time, end_time, duration)
}

/// Whether the timestamps of the points grow from each point to the next.
pub open spec fn in_order(series: Seq<PointValue>) -> bool {
    forall|i: int, j: int|
        0 <= i < j < series.len() ==> (#[trigger] series[i]).timestamp < (
        #[trigger] series[j]).timestamp
}

/// Whether the instant is the start of one of the first `count` windows.
pub open spec fn starts_window(timestamp: int, start_time: int, duration: int, count: nat) -> bool {
    exists|k: nat| k < count && timestamp == #[trigger] window_start(start_time, duration, k)
}

/// Whether the series has a point for the instant.
pub open spec fn has_point_at(series: Seq<PointValue>, timestamp: int) -> bool {
    exists|j: int| 0 <= j < series.len() && (#[trigger] series[j]).timestamp == timestamp
}

/// A series has at most one point for each window and none for any other
/// instant; its points stand in the order of their windows; and a window has
/// a point if and only if the reply for it lists at least one trade.
pub proof fn lemma_series_follows_windows(start_time: int, duration: int, replies: Seq<Reply>)
    requires
        duration > 0,
        series_of(start_time, duration, replies) is Ok,
    ensures
        ({
            let series = series_of(start_time, duration, replies)->Ok_0;
            &&& series.len() <= replies.len()
            &&& in_order(series)
            &&& forall|j: int|
                0 <= j < series.len() ==> starts_window(
                    (#[trigger] series[j]).timestamp,
                    start_time,
                    duration,
                    replies.len(),
                )
            &&& forall|k: int|
                0 <= k < replies.len() ==> (has_point_at(
                    series,
                    window_start(start_time, duration, k as nat),
                ) <==> #[trigger] window_outcome(replies[k]) matches Ok(Some(_)))
        }),
    decreases replies.len(),
{
    let series = series_of(start_time, duration, replies)->Ok_0;
    if replies.len() > 0 {
        let earlier = replies.drop_last();
        let last = (replies.len() - 1) as nat;
        lemma_series_follows_windows(start_time, duration, earlier);
        let before = series_of(start_time, duration, earlier)->Ok_0;
        lemma_series_below(start_time, duration, earlier);
        let stamp = window_start(start_time, duration, last);
        assert forall|k: nat| k < last implies #[trigger] window_start(start_time, duration, k)
            < stamp by {
            assert(k * duration < last * duration) by (nonlinear_arith)
                requires
                    0 <= k < last,
                    duration > 0,
            ;
        }
        assert(!has_point_at(before, stamp));
        assert forall|k: int| 0 <= k < replies.len() implies (has_point_at(
            series,
            window_start(start_time, duration, k as nat),
        ) <==> #[trigger] window_outcome(replies[k]) matches Ok(Some(_))) by {
            let at = window_start(start_time, duration, k as nat);
            if k < last {
                assert(replies[k] == earlier[k]);
                if has_point_at(before, at) {
                    let j = choose|j: int| 0 <= j < before.len() && before[j].timestamp == at;
                    assert(series[j].timestamp == at);
                }
                if has_point_at(series, at) {
                    let j = choose|j: int| 0 <= j < series.len() && series[j].timestamp == at;
                    assert(j < before.len());
                    assert(before[j].timestamp == at);
                }
            } else {
                if series.len() > before.len() {
                    assert(series[before.len() as int].timestamp == at);
                }
            }
        }
        assert forall|j: int| 0 <= j < series.len() implies starts_window(
            (#[trigger] series[j]).timestamp,
            start_time,
            duration,
            replies.len(),
        ) by {
            if j < before.len() {
                assert(starts_window(before[j].timestamp, start_time, duration, earlier.len()));
                let k = choose|k: nat|
                    k < earlier.len() && before[j].timestamp == #[trigger] window_start(
                        start_time,
                        duration,
                        k,
                    );
                assert(series[j].timestamp == window_start(start_time, duration, k));
            } else {
                assert(series[j].timestamp == window_start(start_time, duration, last));
            }
        }
    }
}

/// The first reply that makes a failure decides the result: the series comes
/// to that failure, whatever the replies behind it are.
pub proof fn lemma_first_failure_wins(
    start_time: int,
    duration: int,
    replies: Seq<Reply>,
    failing: int,
)
    requires
        0 <= failing < replies.len(),
        window_outcome(replies[failing]) is Err,
        forall|k: int| 0 <= k < failing ==> (#[trigger] window_outcome(replies[k])) is Ok,
    ensures
        series_of(start_time, duration, replies) == Err::<Seq<PointValue>, Failure>(
            window_outcome(replies[failing])->Err_0,
        ),
        series_of(start_time, duration, replies.take(failing)) is Ok,
    decreases replies.len(),
{
    let earlier = replies.drop_last();
    if failing == replies.len() - 1 {
        assert(replies.take(failing) =~= earlier);
        lemma_no_failure_gives_series(start_time, duration, earlier);
    } else {
        assert(earlier[failing] == replies[failing]);
        assert forall|k: int| 0 <= k < failing implies (#[trigger] window_outcome(
            earlier[k],
        )) is Ok by {
            assert(earlier[k] == replies[k]);
        }
        lemma_first_failure_wins(start_time, duration, earlier, failing);
        assert(earlier.take(failing) =~= replies.take(failing));
    }
}

/// Replies of which none makes a failure come to a series.
pub proof fn lemma_no_failure_gives_series(start_time: int, duration: int, replies: Seq<Reply>)
    requires
        forall|k: int| 0 <= k < replies.len() ==> (#[trigger] window_outcome(replies[k])) is Ok,
    ensures
        series_of(start_time, duration, replies) is Ok,
    decreases replies.len(),
{
    if replies.len() > 0 {
        let earlier = replies.drop_last();
        assert forall|k: int| 0 <= k < earlier.len() implies (#[trigger] window_outcome(
            earlier[k],
        )) is Ok by {
            assert(earlier[k] == replies[k]);
        }
        lemma_no_failure_gives_series(start_time, duration, earlier);
        assert(window_outcome(replies[replies.len() - 1]) is Ok);
    }
}

/// Every point of a series stands before the window after the last reply.
proof fn lemma_series_below(start_time: int, duration: int, replies: Seq<Reply>)
    requires
        duration > 0,
        series_of(start_time, duration, replies) is Ok,
    ensures
        forall|j: int|
            0 <= j < series_of(start_time, duration, replies)->Ok_0.len() ==> (
            #[trigger] series_of(start_time, duration, replies)->Ok_0[j]).timestamp < window_start(
                start_time,
                duration,
                replies.len(),
            ),
    decreases replies.len(),
{
    if replies.len() > 0 {
        let last = (replies.len() - 1) as nat;
        lemma_series_below(start_time, duration, replies.drop_last());
        assert(last * duration < replies.len() * duration) by (nonlinear_arith)
            requires
                last < replies.len(),
                duration > 0,
        ;
    }
}

/// A request for aggregate trades, as a source takes it.
pub struct AggTradesRequest<'a> {
    pub symbol: &'a str,
    pub from_id: Option<i64>,
    pub start_time: Option<i64>,
    pub end_time: Option<i64>,
    pub limit: Option<i64>,
}

/// The request for the trades of `symbol` within the window, both ends
/// included: no first trade id and no limit are given, so that the source
/// goes by its own.
pub fn window_request<'a>(symbol: &'a str, window: &TimeWindow) -> (request: AggTradesRequest<'a>)
    ensures
        request.symbol@ == symbol@,
        request.from_id is None,
        request.start_time == Some(window.start),
        request.end_time == Some(window.end),
        request.limit is None,
{
    AggTradesRequest {
        symbol,
        from_id: None,
        start_time: Some(window.start),
        end_time: Some(window.end),
        limit: None,
    }
}

/// Computes series of average prices from the trades that a source reports.
pub struct BinancePriceProvider {
    /// The source that the provider asks.
    pub binance_api: Box<dyn BinanceAPI>,
}

impl BinancePriceProvider {
    /// A provider that asks `binance_api` for trades.
    pub fn new(binance_api: Box<dyn BinanceAPI>) -> (provider: BinancePriceProvider)
        ensures
            provider.binance_api === binance_api,
    {
        BinancePriceProvider { binance_api }
    }

    /// Sends the source the request of `window_request` and averages the
    /// prices of the trades in its reply. The result is what the reply comes
    /// to, whatever that reply is.
    pub fn fetch_avg_price_for_window(&self, symbol: &str, window: &TimeWindow) -> (average: Result<
        Option<MeanPrice>,
        PriceError,
    >)
        ensures
            exists|reply: Reply| average_view(average) == #[trigger] window_outcome(reply),
    {
        let request = window_request(symbol, window);
        let response = self.binance_api.agg_trades(
            request.symbol,
            request.from_id,
            request.start_time,
            request.end_time,
            request.limit,
        );
        window_average(response)
    }

    /// The series of average prices of `symbol` between two instants, given
    /// in milliseconds since the epoch, one point for each window of one
    /// minute in which the source reports a trade. The windows are asked for
    /// in order, and what each comes to is taken into the series by
    /// `extend_series`; the first failure ends the computation and is
    /// returned, and no window after it is asked for.
    pub fn prices(&self, symbol: &str, start_time: i64, end_time: i64) -> (result: Result<
        PriceSeries,
        PriceError,
    >)
        ensures
            exists|replies: Seq<Reply>| #[trigger]
                is_series_for(
                    series_view(result),
                    start_time as int,
                    end_time as int,
                    TIME_WINDOW as int,
                    replies,
                ),
            result matches Ok(series) ==> {
                &&& in_order(points(series@))
                &&& series@.len() <= window_count(
                    start_time as int,
                    end_time as int,
                    TIME_WINDOW as int,
                )
            },
    {
        let mut series: PriceSeries = Vec::new();
        let mut window = first_window(start_time, end_time, TIME_WINDOW);
        let ghost mut replies: Seq<Reply> = Seq::empty();
        let ghost count = window_count(start_time as int, end_time as int, TIME_WINDOW as int);
        proof {
            lemma_window_count(start_time as int, end_time as int, TIME_WINDOW as int, 0);
            assert(points(series@) =~= Seq::empty());
        }
        loop
            invariant_except_break
                replies.len() < count,
                window.start == window_start(
                    start_time as int,
                    TIME_WINDOW as int,
                    replies.len(),
                ),
            invariant
                count == window_count(start_time as int, end_time as int, TIME_WINDOW as int),
                replies.len() <= count,
                series_of(start_time as int, TIME_WINDOW as int, replies) == Ok::<
                    Seq<PointValue>,
                    Failure,
                >(points(series@)),
            ensures
                replies.len() == count,
                replies.len() > 0,
                series_of(start_time as int, TIME_WINDOW as int, replies.drop_last()) is Ok,
            decreases count - replies.len(),
        {
            let ghost index = replies.len();
            let ghost before = replies;
            let average = self.fetch_avg_price_for_window(symbol, &window);
            proof {
                let reply = choose|reply: Reply|
                    average_view(average) == #[trigger] window_outcome(reply);
                replies = replies.push(reply);
                assert(replies.drop_last() =~= before);
            }
            match extend_series(&mut series, &window, average) {
                Err(error) => {
                    proof {
                        assert(is_series_for(
                            series_view(Err(error)),
                            start_time as int,
                            end_time as int,
                            TIME_WINDOW as int,
                            replies,
                        ));
                    }
                    return Err(error);
                },
                Ok(()) => {},
            }
            proof {
                assert((index + 1) * TIME_WINDOW == index * TIME_WINDOW + TIME_WINDOW)
                    by (nonlinear_arith);
                lemma_window_count(
                    start_time as int,
                    end_time as int,
                    TIME_WINDOW as int,
                    index + 1,
                );
            }
            match next_window(&window, end_time, TIME_WINDOW) {
                Some(next) => {
                    window = next;
                },
                None => {
                    break ;
                },
            }
        }
        proof {
            lemma_series_follows_windows(start_time as int, TIME_WINDOW as int, replies);
            assert(is_series_for(
                series_view(Ok(series)),
                start_time as int,
                end_time as int,
                TIME_WINDOW as int,
                replies,
            ));
        }
        Ok(series)
    }
}

} // verus!
